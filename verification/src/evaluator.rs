//! Evaluating a postfix token sequence on a single value stack.

use vstd::prelude::*;
use vstd::arithmetic::power::pow;
use vstd::arithmetic::power::lemma_pow0;
use vstd::arithmetic::power::lemma_pow1;
use vstd::arithmetic::power::lemma_pow_adds;
use vstd::arithmetic::power::lemma_pow_increases;
use crate::token::CalcError;
use crate::token::Token;

verus! {

/// What one operator yields on operands `a` (left) and `b` (right):
/// ordinary integer arithmetic on seconds, with floor division, and with
/// every excursion outside the non-negative duration range reported as an
/// error rather than wrapped.
pub open spec fn spec_apply(op: Token, a: u32, b: u32) -> Result<u32, CalcError> {
    match op {
        Token::Plus => if a + b > u32::MAX {
            Err(CalcError::ArithmeticOverflowError)
        } else {
            Ok((a + b) as u32)
        },
        Token::Minus => if a < b {
            Err(CalcError::NegativeDurationError)
        } else {
            Ok((a - b) as u32)
        },
        Token::Times => if a * b > u32::MAX {
            Err(CalcError::ArithmeticOverflowError)
        } else {
            Ok((a * b) as u32)
        },
        Token::Divide => if b == 0 {
            Err(CalcError::DivideByZeroError)
        } else {
            Ok((a as nat / b as nat) as u32)
        },
        Token::Power => if pow(a as int, b as nat) > u32::MAX {
            Err(CalcError::ArithmeticOverflowError)
        } else {
            Ok(pow(a as int, b as nat) as u32)
        },
        _ => Err(CalcError::EvaluationError),
    }
}

/// The value stack after consuming a postfix token sequence: durations are
/// pushed, each operator replaces the two topmost values (the deeper one is
/// the left operand) by its result, and a parenthesis or a missing operand
/// is a malformed expression.
pub open spec fn spec_eval_loop(toks: Seq<Token>, stack: Seq<u32>) -> Result<Seq<u32>, CalcError>
    decreases toks.len(),
{
    if toks.len() == 0 {
        Ok(stack)
    } else {
        let t = toks.first();
        match t {
            Token::Duration(v) => spec_eval_loop(toks.drop_first(), stack.push(v)),
            Token::LeftParen => Err(CalcError::EvaluationError),
            Token::RightParen => Err(CalcError::EvaluationError),
            _ => if stack.len() < 2 {
                Err(CalcError::EvaluationError)
            } else {
                let b = stack.last();
                let a = stack[stack.len() - 2];
                match spec_apply(t, a, b) {
                    Ok(v) => spec_eval_loop(
                        toks.drop_first(),
                        stack.drop_last().drop_last().push(v),
                    ),
                    Err(e) => Err(e),
                }
            },
        }
    }
}

/// The result of a postfix expression: the single value its stack holds at
/// the end, zero for an empty sequence, and `EvaluationError` when more
/// than one value is left.
pub open spec fn spec_evaluate_postfix(toks: Seq<Token>) -> Result<u32, CalcError> {
    match spec_eval_loop(toks, Seq::empty()) {
        Ok(stack) => if stack.len() == 0 {
            Ok(0u32)
        } else if stack.len() == 1 {
            Ok(stack[0])
        } else {
            Err(CalcError::EvaluationError)
        },
        Err(e) => Err(e),
    }
}

/// Apply one binary operator to `a` (left operand) and `b` (right
/// operand), as `spec_apply` says; a non-operator token yields
/// `EvaluationError`.
pub fn perform_operation(operator: Token, a: u32, b: u32) -> (r: Result<u32, CalcError>)
    ensures
        r == spec_apply(operator, a, b),
{
    match operator {
        Token::Plus => {
            if a > u32::MAX - b {
                Err(CalcError::ArithmeticOverflowError)
            } else {
                Ok(a + b)
            }
        },
        Token::Minus => {
            if a < b {
                Err(CalcError::NegativeDurationError)
            } else {
                Ok(a - b)
            }
        },
        Token::Times => {
            proof {
                assert((a as u64) * (b as u64) <= 0xFFFF_FFFFu64 * 0xFFFF_FFFFu64)
                    by (nonlinear_arith)
                    requires
                        a as u64 <= 0xFFFF_FFFFu64,
                        b as u64 <= 0xFFFF_FFFFu64,
                ;
            }
            let wide: u64 = a as u64 * b as u64;
            if wide > 0xFFFF_FFFF {
                Err(CalcError::ArithmeticOverflowError)
            } else {
                Ok(wide as u32)
            }
        },
        Token::Divide => {
            if b == 0 {
                Err(CalcError::DivideByZeroError)
            } else {
                Ok(a / b)
            }
        },
        Token::Power => int_pow(a, b),
        _ => Err(CalcError::EvaluationError),
    }
}

/// Integer exponentiation `a` to the `b`, with overflow reported instead
/// of wrapped.
fn int_pow(a: u32, b: u32) -> (r: Result<u32, CalcError>)
    ensures
        pow(a as int, b as nat) <= u32::MAX ==> r == Ok::<u32, CalcError>(
            pow(a as int, b as nat) as u32,
        ),
        pow(a as int, b as nat) > u32::MAX ==> r == Err::<u32, CalcError>(
            CalcError::ArithmeticOverflowError,
        ),
{
    let mut result: u32 = 1;
    let mut e: u32 = 0;
    proof {
        lemma_pow0(a as int);
    }
    while e < b
        invariant
            e <= b,
            result as int == pow(a as int, e as nat),
        decreases b - e,
    {
        proof {
            assert((result as u64) * (a as u64) <= 0xFFFF_FFFFu64 * 0xFFFF_FFFFu64)
                by (nonlinear_arith)
                requires
                    result as u64 <= 0xFFFF_FFFFu64,
                    a as u64 <= 0xFFFF_FFFFu64,
            ;
        }
        let wide: u64 = result as u64 * a as u64;
        proof {
            lemma_pow1(a as int);
            lemma_pow_adds(a as int, e as nat, 1nat);
            assert(pow(a as int, (e + 1) as nat) == pow(a as int, e as nat) * a);
        }
        if wide > 0xFFFF_FFFF {
            proof {
                assert(a >= 2) by (nonlinear_arith)
                    requires
                        (result as u64) * (a as u64) > 0xFFFF_FFFFu64,
                        result as u64 <= 0xFFFF_FFFFu64,
                ;
                lemma_pow_increases(a as nat, (e + 1) as nat, b as nat);
            }
            return Err(CalcError::ArithmeticOverflowError);
        }
        result = wide as u32;
        e += 1;
    }
    Ok(result)
}

/// Evaluate a postfix token sequence to a single second count, as
/// `spec_evaluate_postfix` says: an empty input yields zero, and a
/// malformed sequence or an out-of-range intermediate value aborts with
/// the fitting error.
pub fn evaluate_postfix(symbols_postfix: &Vec<Token>) -> (r: Result<u32, CalcError>)
    ensures
        match r {
            Ok(v) => spec_evaluate_postfix(symbols_postfix@) == Ok::<u32, CalcError>(v),
            Err(e) => spec_evaluate_postfix(symbols_postfix@) == Err::<u32, CalcError>(e),
        },
{
    let mut result_stack: Vec<u32> = Vec::new();
    let mut i: usize = 0;
    proof {
        assert(symbols_postfix@.skip(0) =~= symbols_postfix@);
    }
    while i < symbols_postfix.len()
        invariant
            i <= symbols_postfix.len(),
            spec_eval_loop(symbols_postfix@.skip(i as int), result_stack@) == spec_eval_loop(
                symbols_postfix@,
                Seq::empty(),
            ),
        decreases symbols_postfix.len() - i,
    {
        let ghost s_i = symbols_postfix@.skip(i as int);
        let ghost stack0 = result_stack@;
        proof {
            assert(s_i.first() == symbols_postfix@[i as int]);
            assert(s_i.drop_first() =~= symbols_postfix@.skip(i + 1));
        }
        let t = symbols_postfix[i];
        match t {
            Token::Duration(v) => {
                result_stack.push(v);
            },
            Token::LeftParen => {
                return Err(CalcError::EvaluationError);
            },
            Token::RightParen => {
                return Err(CalcError::EvaluationError);
            },
            _ => {
                if result_stack.len() < 2 {
                    return Err(CalcError::EvaluationError);
                }
                let b = result_stack.pop().unwrap();
                let a = result_stack.pop().unwrap();
                proof {
                    assert(b == stack0.last());
                    assert(result_stack@ =~= stack0.drop_last().drop_last());
                    assert(a == stack0.drop_last().last());
                    assert(a == stack0[stack0.len() - 2]);
                }
                match perform_operation(t, a, b) {
                    Ok(v) => {
                        result_stack.push(v);
                    },
                    Err(e) => {
                        return Err(e);
                    },
                }
            },
        }
        i += 1;
    }
    proof {
        assert(symbols_postfix@.skip(symbols_postfix@.len() as int) =~= Seq::<Token>::empty());
    }
    if result_stack.len() == 0 {
        Ok(0)
    } else if result_stack.len() == 1 {
        let v = result_stack[0];
        Ok(v)
    } else {
        Err(CalcError::EvaluationError)
    }
}

} // verus!
