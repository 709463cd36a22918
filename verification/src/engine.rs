//! The whole engine as one pipeline: tokenize, optionally scale, convert
//! to postfix, evaluate, format.

use vstd::prelude::*;
use crate::converter::spec_to_postfix;
use crate::converter::to_postfix;
use crate::evaluator::spec_evaluate_postfix;
use crate::evaluator::evaluate_postfix;
use crate::formatter::spec_seconds_to_time;
use crate::formatter::seconds_to_time;
use crate::scaler::spec_inflate;
use crate::scaler::inflate_values;
use crate::token::CalcError;
use crate::token::Token;
use crate::tokenizer::spec_parse_symbols;
use crate::tokenizer::parse_symbols;

verus! {

/// The factor between a minute count and a second count.
pub const MINUTE_FACTOR: u32 = 60;

/// The scaling step as the pipeline applies it: with the minutes flag set,
/// every duration token is multiplied by sixty; without it the tokens pass
/// through unchanged.
pub open spec fn spec_scale(toks: Seq<Token>, minutes: bool) -> Result<Seq<Token>, CalcError> {
    if minutes {
        spec_inflate(toks, MINUTE_FACTOR)
    } else {
        Ok(toks)
    }
}

/// What the engine yields on one expression string: the clock rendering of
/// the evaluated expression, or the error of the first stage that fails.
/// An empty input tokenizes to no tokens and evaluates to zero seconds, so
/// it yields `00:00:00` rather than an error.
pub open spec fn spec_evaluate_expression(s: Seq<char>, minutes: bool) -> Result<
    Seq<char>,
    CalcError,
> {
    match spec_parse_symbols(s) {
        Err(e) => Err(e),
        Ok(toks) => match spec_scale(toks, minutes) {
            Err(e) => Err(e),
            Ok(scaled) => match spec_to_postfix(scaled) {
                None => Err(CalcError::UnbalancedParenError),
                Some(post) => match spec_evaluate_postfix(post) {
                    Err(e) => Err(e),
                    Ok(v) => Ok(spec_seconds_to_time(v)),
                },
            },
        },
    }
}

/// Evaluate one duration-arithmetic expression end to end and format the
/// result as `HH:MM:SS`; the minutes flag reads bare values as minutes
/// rather than seconds. Exactly the composition that
/// `spec_evaluate_expression` states.
pub fn evaluate_expression(input: &str, minutes: bool) -> (r: Result<String, CalcError>)
    ensures
        match r {
            Ok(out) => spec_evaluate_expression(input@, minutes) == Ok::<Seq<char>, CalcError>(
                out@,
            ),
            Err(e) => spec_evaluate_expression(input@, minutes) == Err::<Seq<char>, CalcError>(
                e,
            ),
        },
{
    let symbols_infix = match parse_symbols(input) {
        Ok(v) => v,
        Err(e) => {
            return Err(e);
        },
    };
    let symbols_scaled = if minutes {
        match inflate_values(symbols_infix, MINUTE_FACTOR) {
            Ok(v) => v,
            Err(e) => {
                return Err(e);
            },
        }
    } else {
        symbols_infix
    };
    let symbols_postfix = match to_postfix(&symbols_scaled) {
        Ok(v) => v,
        Err(e) => {
            return Err(e);
        },
    };
    let result_seconds = match evaluate_postfix(&symbols_postfix) {
        Ok(v) => v,
        Err(e) => {
            return Err(e);
        },
    };
    Ok(seconds_to_time(result_seconds))
}

} // verus!
