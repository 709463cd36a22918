//! The optional input scaling step: multiplying every duration token by a
//! fixed factor while leaving the operator layout untouched.

use vstd::prelude::*;
use crate::token::CalcError;
use crate::token::Token;

verus! {

/// Scaling a token sequence: every `Duration` value is multiplied by
/// `factor` (failing with `ArithmeticOverflowError` past the duration
/// range), every other token is kept as it is.
pub open spec fn spec_inflate(toks: Seq<Token>, factor: u32) -> Result<Seq<Token>, CalcError>
    decreases toks.len(),
{
    if toks.len() == 0 {
        Ok(Seq::empty())
    } else {
        let scaled_first = match toks.first() {
            Token::Duration(v) => {
                if v * factor > u32::MAX {
                    Err(CalcError::ArithmeticOverflowError)
                } else {
                    Ok(Token::Duration((v * factor) as u32))
                }
            },
            t => Ok(t),
        };
        match scaled_first {
            Err(e) => Err(e),
            Ok(t) => match spec_inflate(toks.drop_first(), factor) {
                Ok(rest) => Ok(seq![t].add(rest)),
                Err(e) => Err(e),
            },
        }
    }
}

/// Scaling never reorders: on success the result has the same length,
/// every duration is exactly the old value times the factor, and every
/// other token is unchanged; it fails, with `ArithmeticOverflowError`,
/// exactly when some scaled duration would leave the representable range.
pub proof fn lemma_inflate_pointwise(toks: Seq<Token>, factor: u32)
    ensures
        (spec_inflate(toks, factor) is Ok <==> (forall|k: int|
            0 <= k < toks.len() ==> match #[trigger] toks[k] {
                Token::Duration(v) => v * factor <= u32::MAX,
                _ => true,
            })),
        spec_inflate(toks, factor) is Err ==> spec_inflate(toks, factor) == Err::<
            Seq<Token>,
            CalcError,
        >(CalcError::ArithmeticOverflowError),
        spec_inflate(toks, factor) matches Ok(r) ==> r.len() == toks.len() && (forall|k: int|
            0 <= k < toks.len() ==> match #[trigger] toks[k] {
                Token::Duration(v) => r[k] == Token::Duration((v * factor) as u32),
                t => r[k] == t,
            }),
    decreases toks.len(),
{
    if toks.len() > 0 {
        let rest = toks.drop_first();
        lemma_inflate_pointwise(rest, factor);
        let first_ok = match toks.first() {
            Token::Duration(v) => v * factor <= u32::MAX,
            _ => true,
        };
        assert(toks[0] == toks.first());
        if !first_ok {
            assert(spec_inflate(toks, factor) is Err);
        } else {
            lemma_inflate_cons(toks, factor, rest);
            if (forall|k: int|
                0 <= k < toks.len() ==> match #[trigger] toks[k] {
                    Token::Duration(v) => v * factor <= u32::MAX,
                    _ => true,
                }) {
                assert forall|k: int|
                    0 <= k < rest.len() implies match #[trigger] rest[k] {
                        Token::Duration(v) => v * factor <= u32::MAX,
                        _ => true,
                    } by {
                    assert(rest[k] == toks[k + 1]);
                }
                assert(spec_inflate(rest, factor) is Ok);
            }
            if spec_inflate(toks, factor) is Ok {
                assert(spec_inflate(rest, factor) is Ok);
                assert forall|k: int|
                    0 <= k < toks.len() implies match #[trigger] toks[k] {
                        Token::Duration(v) => v * factor <= u32::MAX,
                        _ => true,
                    } by {
                    if k > 0 {
                        assert(toks[k] == rest[k - 1]);
                    }
                }
            }
        }
    }
}

/// Helper for the pointwise characterization: relates the scaling of a
/// non-empty sequence, whose first token scales without overflow, to the
/// scaling of its tail.
proof fn lemma_inflate_cons(toks: Seq<Token>, factor: u32, rest: Seq<Token>)
    requires
        toks.len() > 0,
        rest == toks.drop_first(),
        match toks.first() {
            Token::Duration(v) => v * factor <= u32::MAX,
            _ => true,
        },
        spec_inflate(rest, factor) is Err ==> spec_inflate(rest, factor) == Err::<
            Seq<Token>,
            CalcError,
        >(CalcError::ArithmeticOverflowError),
        spec_inflate(rest, factor) matches Ok(r) ==> r.len() == rest.len() && (forall|k: int|
            0 <= k < rest.len() ==> match #[trigger] rest[k] {
                Token::Duration(v) => r[k] == Token::Duration((v * factor) as u32),
                t => r[k] == t,
            }),
    ensures
        spec_inflate(toks, factor) is Ok <==> spec_inflate(rest, factor) is Ok,
        spec_inflate(toks, factor) is Err ==> spec_inflate(toks, factor) == Err::<
            Seq<Token>,
            CalcError,
        >(CalcError::ArithmeticOverflowError),
        spec_inflate(toks, factor) matches Ok(r) ==> r.len() == toks.len() && (forall|k: int|
            0 <= k < toks.len() ==> match #[trigger] toks[k] {
                Token::Duration(v) => r[k] == Token::Duration((v * factor) as u32),
                t => r[k] == t,
            }),
{
    let scaled = match toks.first() {
        Token::Duration(v) => Token::Duration((v * factor) as u32),
        t => t,
    };
    match spec_inflate(rest, factor) {
        Ok(r2) => {
            assert(spec_inflate(toks, factor) == Ok::<Seq<Token>, CalcError>(
                seq![scaled].add(r2),
            ));
            let r = seq![scaled].add(r2);
            assert forall|k: int|
                0 <= k < toks.len() implies match #[trigger] toks[k] {
                    Token::Duration(v) => r[k] == Token::Duration((v * factor) as u32),
                    t => r[k] == t,
                } by {
                if k == 0 {
                    assert(r[0] == scaled);
                    assert(toks[0] == toks.first());
                } else {
                    assert(toks[k] == rest[k - 1]);
                    assert(r[k] == r2[k - 1]);
                    assert(match rest[k - 1] {
                        Token::Duration(v) => r2[k - 1] == Token::Duration((v * factor) as u32),
                        t => r2[k - 1] == t,
                    });
                }
            }
        },
        Err(e) => {},
    }
}

/// Multiply every duration token by `factor`, leaving operators and
/// parentheses where they stand; used for the "values are minutes, not
/// seconds" input mode with a factor of 60. Fails with
/// `ArithmeticOverflowError` if a scaled value would not fit.
pub fn inflate_values(symbols: Vec<Token>, factor: u32) -> (r: Result<Vec<Token>, CalcError>)
    ensures
        match r {
            Ok(v) => spec_inflate(symbols@, factor) == Ok::<Seq<Token>, CalcError>(v@),
            Err(e) => spec_inflate(symbols@, factor) == Err::<Seq<Token>, CalcError>(e),
        },
{
    let mut inflated_symbols: Vec<Token> = Vec::new();
    let mut i: usize = 0;
    proof {
        assert(symbols@.skip(0) =~= symbols@);
        match spec_inflate(symbols@, factor) {
            Ok(rest) => {
                assert(Seq::<Token>::empty().add(rest) =~= rest);
            },
            Err(e) => {},
        }
    }
    while i < symbols.len()
        invariant
            i <= symbols.len(),
            match spec_inflate(symbols@.skip(i as int), factor) {
                Ok(rest) => spec_inflate(symbols@, factor) == Ok::<Seq<Token>, CalcError>(
                    inflated_symbols@.add(rest),
                ),
                Err(e) => spec_inflate(symbols@, factor) == Err::<Seq<Token>, CalcError>(e),
            },
        decreases symbols.len() - i,
    {
        let ghost s_i = symbols@.skip(i as int);
        proof {
            assert(s_i.first() == symbols@[i as int]);
            assert(s_i.drop_first() =~= symbols@.skip(i + 1));
        }
        let t = symbols[i];
        let ghost out0 = inflated_symbols@;
        match t {
            Token::Duration(v) => {
                proof {
                    assert((v as u64) * (factor as u64) <= 0xFFFF_FFFFu64 * 0xFFFF_FFFFu64)
                        by (nonlinear_arith)
                        requires
                            v as u64 <= 0xFFFF_FFFFu64,
                            factor as u64 <= 0xFFFF_FFFFu64,
                    ;
                }
                let wide: u64 = v as u64 * factor as u64;
                if wide > 0xFFFF_FFFF {
                    return Err(CalcError::ArithmeticOverflowError);
                }
                inflated_symbols.push(Token::Duration(wide as u32));
            },
            _ => {
                inflated_symbols.push(t);
            },
        }
        proof {
            let scaled = inflated_symbols@.last();
            assert(inflated_symbols@ == out0.push(scaled));
            match spec_inflate(symbols@.skip(i + 1), factor) {
                Ok(rest2) => {
                    assert(spec_inflate(s_i, factor) == Ok::<Seq<Token>, CalcError>(
                        seq![scaled].add(rest2),
                    ));
                    assert(out0.add(seq![scaled].add(rest2)) =~= out0.push(scaled).add(rest2));
                },
                Err(e2) => {},
            }
        }
        i += 1;
    }
    proof {
        assert(symbols@.skip(symbols@.len() as int) =~= Seq::<Token>::empty());
        assert(inflated_symbols@.add(Seq::<Token>::empty()) =~= inflated_symbols@);
    }
    Ok(inflated_symbols)
}

} // verus!
