//! Infix-to-postfix conversion by the shunting-yard algorithm.

use vstd::prelude::*;
use crate::token::CalcError;
use crate::token::Token;
use crate::token::spec_priority;
use crate::token::priority;

verus! {

/// The operators popped from the stack (topmost first) before an incoming
/// operator of priority `p` is pushed, and the stack that remains: popping
/// stops at a left parenthesis, below the incoming priority, or on an
/// empty stack. Equal priority pops — the left-associative tie-break.
pub open spec fn spec_pop_ge(stack: Seq<Token>, p: u8) -> (Seq<Token>, Seq<Token>)
    decreases stack.len(),
{
    if stack.len() > 0 && stack.last() != Token::LeftParen && spec_priority(stack.last()) >= p {
        let r = spec_pop_ge(stack.drop_last(), p);
        (seq![stack.last()].add(r.0), r.1)
    } else {
        (Seq::empty(), stack)
    }
}

/// The tokens popped (topmost first) when a right parenthesis arrives, and
/// the stack left after the matching left parenthesis is discarded; `None`
/// when no left parenthesis is on the stack.
pub open spec fn spec_pop_until_lparen(stack: Seq<Token>) -> Option<(Seq<Token>, Seq<Token>)>
    decreases stack.len(),
{
    if stack.len() == 0 {
        None
    } else if stack.last() == Token::LeftParen {
        Some((Seq::empty(), stack.drop_last()))
    } else {
        match spec_pop_until_lparen(stack.drop_last()) {
            None => None,
            Some(r) => Some((seq![stack.last()].add(r.0), r.1)),
        }
    }
}

/// One run of the shunting-yard conversion, with `stack` the operator
/// stack and `out` the postfix output so far: durations go straight to the
/// output, operators pop their priority-bound prefix first, parentheses
/// group, and `None` stands for unbalanced parentheses.
pub open spec fn spec_sy(toks: Seq<Token>, stack: Seq<Token>, out: Seq<Token>) -> Option<
    Seq<Token>,
>
    decreases toks.len(),
{
    if toks.len() == 0 {
        if stack.contains(Token::LeftParen) {
            None
        } else {
            Some(out.add(stack.reverse()))
        }
    } else {
        let t = toks.first();
        let rest = toks.drop_first();
        match t {
            Token::Duration(v) => spec_sy(rest, stack, out.push(t)),
            Token::LeftParen => spec_sy(rest, stack.push(t), out),
            Token::RightParen => match spec_pop_until_lparen(stack) {
                None => None,
                Some(r) => spec_sy(rest, r.1, out.add(r.0)),
            },
            _ => {
                let r = spec_pop_ge(stack, spec_priority(t));
                spec_sy(rest, r.1.push(t), out.add(r.0))
            },
        }
    }
}

/// The postfix form of an infix token sequence, or `None` when its
/// parentheses do not balance.
pub open spec fn spec_to_postfix(toks: Seq<Token>) -> Option<Seq<Token>> {
    spec_sy(toks, Seq::empty(), Seq::empty())
}

/// Moving one token from the head of a `seq![t].add(x)` output block onto
/// the end of the accumulated output.
proof fn lemma_out_assoc(o: Seq<Token>, t: Token, x: Seq<Token>)
    ensures
        o.add(seq![t].add(x)) == o.push(t).add(x),
{
    assert(o.add(seq![t].add(x)) =~= o.push(t).add(x));
}

/// Reorder an infix token sequence into postfix (Reverse-Polish) form with
/// the shunting-yard algorithm, preserving evaluation order under the
/// standard left-associative precedence table; fails with
/// `UnbalancedParenError` exactly when the parentheses do not balance.
pub fn to_postfix(symbols_infix: &Vec<Token>) -> (r: Result<Vec<Token>, CalcError>)
    ensures
        match r {
            Ok(v) => spec_to_postfix(symbols_infix@) == Some(v@),
            Err(e) => spec_to_postfix(symbols_infix@) is None && e
                == CalcError::UnbalancedParenError,
        },
{
    let mut stack: Vec<Token> = Vec::new();
    let mut postfix: Vec<Token> = Vec::new();
    let mut i: usize = 0;
    proof {
        assert(symbols_infix@.skip(0) =~= symbols_infix@);
    }
    while i < symbols_infix.len()
        invariant
            i <= symbols_infix.len(),
            spec_sy(symbols_infix@.skip(i as int), stack@, postfix@) == spec_to_postfix(
                symbols_infix@,
            ),
        decreases symbols_infix.len() - i,
    {
        let ghost s_i = symbols_infix@.skip(i as int);
        proof {
            assert(s_i.first() == symbols_infix@[i as int]);
            assert(s_i.drop_first() =~= symbols_infix@.skip(i + 1));
        }
        let t = symbols_infix[i];
        match t {
            Token::Duration(_) => {
                postfix.push(t);
            },
            Token::LeftParen => {
                stack.push(t);
            },
            Token::RightParen => {
                loop
                    invariant
                        i < symbols_infix@.len(),
                        s_i == symbols_infix@.skip(i as int),
                        s_i.first() == t,
                        t == Token::RightParen,
                        spec_sy(s_i, stack@, postfix@) == spec_to_postfix(symbols_infix@),
                    ensures
                        spec_sy(s_i, stack@, postfix@) == spec_to_postfix(symbols_infix@),
                        stack@.len() == 0 || stack@.last() == Token::LeftParen,
                    decreases stack@.len(),
                {
                    if stack.len() == 0 {
                        break;
                    }
                    let top = stack[stack.len() - 1];
                    if top == Token::LeftParen {
                        break;
                    }
                    let ghost stack0 = stack@;
                    let ghost out0 = postfix@;
                    let popped = stack.pop().unwrap();
                    postfix.push(popped);
                    proof {
                        assert(stack@ =~= stack0.drop_last());
                        let r_opt = spec_pop_until_lparen(stack0.drop_last());
                        if r_opt is Some {
                            let rr = r_opt->Some_0;
                            assert(spec_pop_until_lparen(stack0) == Some(
                                (seq![top].add(rr.0), rr.1),
                            ));
                            lemma_out_assoc(out0, top, rr.0);
                        } else {
                            assert(spec_pop_until_lparen(stack0) is None);
                        }
                        assert(spec_sy(s_i, stack0, out0) == spec_sy(s_i, stack@, postfix@));
                    }
                }
                if stack.len() == 0 {
                    proof {
                        assert(spec_pop_until_lparen(stack@) is None);
                        assert(spec_to_postfix(symbols_infix@) is None);
                    }
                    return Err(CalcError::UnbalancedParenError);
                }
                let ghost stack1 = stack@;
                let ghost out1 = postfix@;
                let _discarded = stack.pop();
                proof {
                    assert(stack1.last() == Token::LeftParen);
                    assert(spec_pop_until_lparen(stack1) == Some(
                        (Seq::<Token>::empty(), stack1.drop_last()),
                    ));
                    assert(stack@ =~= stack1.drop_last());
                    assert(out1.add(Seq::<Token>::empty()) =~= out1);
                    assert(spec_sy(s_i, stack1, out1) == spec_sy(
                        symbols_infix@.skip(i + 1),
                        stack@,
                        postfix@,
                    ));
                }
            },
            _ => {
                let p = priority(&t);
                loop
                    invariant
                        i < symbols_infix@.len(),
                        s_i == symbols_infix@.skip(i as int),
                        s_i.first() == t,
                        !(t is Duration),
                        t != Token::LeftParen,
                        t != Token::RightParen,
                        p == spec_priority(t),
                        spec_sy(s_i, stack@, postfix@) == spec_to_postfix(symbols_infix@),
                    ensures
                        spec_sy(s_i, stack@, postfix@) == spec_to_postfix(symbols_infix@),
                        stack@.len() == 0 || stack@.last() == Token::LeftParen || spec_priority(
                            stack@.last(),
                        ) < p,
                    decreases stack@.len(),
                {
                    if stack.len() == 0 {
                        break;
                    }
                    let top = stack[stack.len() - 1];
                    if top == Token::LeftParen {
                        break;
                    }
                    if priority(&top) < p {
                        break;
                    }
                    let ghost stack0 = stack@;
                    let ghost out0 = postfix@;
                    let popped = stack.pop().unwrap();
                    postfix.push(popped);
                    proof {
                        assert(stack@ =~= stack0.drop_last());
                        let rr = spec_pop_ge(stack0.drop_last(), p);
                        assert(spec_pop_ge(stack0, p) == (seq![top].add(rr.0), rr.1));
                        lemma_out_assoc(out0, top, rr.0);
                        assert(spec_sy(s_i, stack0, out0) == spec_sy(s_i, stack@, postfix@));
                    }
                }
                let ghost stack1 = stack@;
                let ghost out1 = postfix@;
                stack.push(t);
                proof {
                    assert(spec_pop_ge(stack1, p) == (Seq::<Token>::empty(), stack1));
                    assert(out1.add(Seq::<Token>::empty()) =~= out1);
                    assert(spec_sy(s_i, stack1, out1) == spec_sy(
                        symbols_infix@.skip(i + 1),
                        stack@,
                        postfix@,
                    ));
                }
            },
        }
        i += 1;
    }
    proof {
        assert(symbols_infix@.skip(symbols_infix@.len() as int) =~= Seq::<Token>::empty());
    }
    loop
        invariant
            spec_sy(Seq::empty(), stack@, postfix@) == spec_to_postfix(symbols_infix@),
        ensures
            spec_sy(Seq::empty(), stack@, postfix@) == spec_to_postfix(symbols_infix@),
            stack@.len() == 0,
        decreases stack@.len(),
    {
        if stack.len() == 0 {
            break;
        }
        let top = stack[stack.len() - 1];
        if top == Token::LeftParen {
            proof {
                assert(stack@.contains(Token::LeftParen));
                assert(spec_to_postfix(symbols_infix@) is None);
            }
            return Err(CalcError::UnbalancedParenError);
        }
        let ghost stack0 = stack@;
        let ghost out0 = postfix@;
        let popped = stack.pop().unwrap();
        postfix.push(popped);
        proof {
            assert(stack@ =~= stack0.drop_last());
            if stack0.contains(Token::LeftParen) {
                let k = choose|k: int|
                    0 <= k < stack0.len() && stack0[k] == Token::LeftParen;
                assert(stack@[k] == Token::LeftParen);
                assert(stack@.contains(Token::LeftParen));
            }
            if stack@.contains(Token::LeftParen) {
                let k = choose|k: int|
                    0 <= k < stack@.len() && stack@[k] == Token::LeftParen;
                assert(stack0[k] == Token::LeftParen);
                assert(stack0.contains(Token::LeftParen));
            }
            assert(stack0.reverse() =~= seq![top].add(stack@.reverse()));
            lemma_out_assoc(out0, top, stack@.reverse());
            assert(spec_sy(Seq::empty(), stack0, out0) == spec_sy(
                Seq::empty(),
                stack@,
                postfix@,
            ));
        }
    }
    proof {
        assert(!stack@.contains(Token::LeftParen));
        assert(postfix@.add(stack@.reverse()) =~= postfix@);
    }
    Ok(postfix)
}

} // verus!
