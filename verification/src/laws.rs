//! Laws of the engine that relate several components, stated and proved
//! over the same spec functions the components' contracts use.

use vstd::prelude::*;
use crate::formatter::spec_digit_char;
use crate::formatter::spec_decimal;
use crate::formatter::spec_pad2;
use crate::formatter::spec_seconds_to_time;
use crate::tokenizer::spec_is_digit;
use crate::tokenizer::spec_digit_val;
use crate::tokenizer::spec_field_value;
use crate::tokenizer::spec_split_rec;
use crate::tokenizer::spec_split_colon;
use crate::tokenizer::spec_parse_field;
use crate::tokenizer::spec_time_to_seconds;
use crate::token::CalcError;
use crate::token::Token;
use crate::converter::spec_pop_ge;
use crate::converter::spec_pop_until_lparen;
use crate::converter::spec_sy;
use crate::converter::spec_to_postfix;
use crate::evaluator::spec_eval_loop;
use crate::evaluator::spec_evaluate_postfix;
use crate::engine::spec_scale;
use crate::scaler::lemma_inflate_pointwise;

verus! {

/// A digit character is the rendering of its own value.
proof fn lemma_digit_char_val(c: char)
    requires
        spec_is_digit(c),
    ensures
        spec_digit_char(spec_digit_val(c)) == c,
{
    if c as u32 == 48 {
        assert(c == '0');
    } else if c as u32 == 49 {
        assert(c == '1');
    } else if c as u32 == 50 {
        assert(c == '2');
    } else if c as u32 == 51 {
        assert(c == '3');
    } else if c as u32 == 52 {
        assert(c == '4');
    } else if c as u32 == 53 {
        assert(c == '5');
    } else if c as u32 == 54 {
        assert(c == '6');
    } else if c as u32 == 55 {
        assert(c == '7');
    } else if c as u32 == 56 {
        assert(c == '8');
    } else {
        assert(c == '9');
    }
}

/// The decimal value of a two-digit field.
proof fn lemma_two_digit_value(a: char, b: char)
    requires
        spec_is_digit(a),
        spec_is_digit(b),
    ensures
        spec_field_value(seq![a, b]) == 10 * spec_digit_val(a) + spec_digit_val(b),
{
    assert(seq![a, b].drop_last() =~= seq![a]);
    assert(seq![a].drop_last() =~= Seq::<char>::empty());
    assert(spec_field_value(Seq::<char>::empty()) == 0);
    assert(spec_field_value(seq![a]) == spec_digit_val(a));
}

/// A two-digit field renders back, zero-padded, to exactly its own two
/// characters.
proof fn lemma_pad2_two_digit(a: char, b: char)
    requires
        spec_is_digit(a),
        spec_is_digit(b),
    ensures
        spec_pad2(spec_field_value(seq![a, b])) == seq![a, b],
{
    lemma_two_digit_value(a, b);
    lemma_digit_char_val(a);
    lemma_digit_char_val(b);
    let v = spec_field_value(seq![a, b]);
    if v < 10 {
        assert(spec_digit_val(a) == 0);
        assert(a == '0');
        assert(v == spec_digit_val(b));
        assert(spec_pad2(v) == seq!['0'].add(seq![spec_digit_char(v)]));
        assert(seq!['0'].add(seq![spec_digit_char(v)]) =~= seq![a, b]);
    } else {
        assert(v / 10 == spec_digit_val(a) && v % 10 == spec_digit_val(b))
            by (nonlinear_arith)
            requires
                v == 10 * spec_digit_val(a) + spec_digit_val(b),
                spec_digit_val(b) < 10,
                10 <= v,
        ;
        assert(spec_decimal(v) == spec_decimal(v / 10).push(spec_digit_char(v % 10)));
        assert(spec_decimal(spec_digit_val(a)) == seq![a]);
        assert(spec_pad2(v) =~= seq![a, b]);
    }
}

/// A zero-padded clock string: two digit fields for hours, minutes and
/// seconds, separated by colons, with the minute and second fields in
/// their usual range.
pub open spec fn spec_is_padded_clock(s: Seq<char>) -> bool {
    &&& s.len() == 8
    &&& s[2] == ':'
    &&& s[5] == ':'
    &&& spec_is_digit(s[0])
    &&& spec_is_digit(s[1])
    &&& spec_is_digit(s[3])
    &&& spec_is_digit(s[4])
    &&& spec_is_digit(s[6])
    &&& spec_is_digit(s[7])
    &&& spec_field_value(seq![s[3], s[4]]) < 60
    &&& spec_field_value(seq![s[6], s[7]]) < 60
}

/// A clock string splits on its two colons into its three fields.
proof fn lemma_split_clock(s: Seq<char>)
    requires
        spec_is_padded_clock(s),
    ensures
        spec_split_colon(s) =~~= seq![seq![s[0], s[1]], seq![s[3], s[4]], seq![s[6], s[7]]],
{
    let e = Seq::<char>::empty();
    assert forall|k: int| 0 <= k < 8 implies #[trigger] s.skip(k).len() == 8 - k by {}
    assert forall|k: int| 0 <= k < 8 implies #[trigger] s.skip(k).first() == s[k] by {}
    assert forall|k: int| 0 <= k < 8 implies #[trigger] s.skip(k).drop_first() =~= s.skip(k + 1)
        by {}
    assert(s.skip(8) =~= e);
    assert(spec_split_rec(s.skip(8), e.push(s[6]).push(s[7])) == seq![e.push(s[6]).push(s[7])]);
    assert(spec_split_rec(s.skip(7), e.push(s[6])) == spec_split_rec(
        s.skip(8),
        e.push(s[6]).push(s[7]),
    ));
    assert(spec_split_rec(s.skip(6), e) == spec_split_rec(s.skip(7), e.push(s[6])));
    assert(spec_split_rec(s.skip(5), e.push(s[3]).push(s[4])) == seq![e.push(s[3]).push(
        s[4],
    )].add(spec_split_rec(s.skip(6), e)));
    assert(spec_split_rec(s.skip(4), e.push(s[3])) == spec_split_rec(
        s.skip(5),
        e.push(s[3]).push(s[4]),
    ));
    assert(spec_split_rec(s.skip(3), e) == spec_split_rec(s.skip(4), e.push(s[3])));
    assert(spec_split_rec(s.skip(2), e.push(s[0]).push(s[1])) == seq![e.push(s[0]).push(
        s[1],
    )].add(spec_split_rec(s.skip(3), e)));
    assert(spec_split_rec(s.skip(1), e.push(s[0])) == spec_split_rec(
        s.skip(2),
        e.push(s[0]).push(s[1]),
    ));
    assert(spec_split_rec(s.skip(0), e) == spec_split_rec(s.skip(1), e.push(s[0])));
    assert(s.skip(0) =~= s);
    assert(e.push(s[0]).push(s[1]) =~= seq![s[0], s[1]]);
    assert(e.push(s[3]).push(s[4]) =~= seq![s[3], s[4]]);
    assert(e.push(s[6]).push(s[7]) =~= seq![s[6], s[7]]);
}

/// Round trip of the surface format: parsing a well-formed zero-padded
/// `HH:MM:SS` string to seconds and formatting that second count yields
/// the very same string.
pub proof fn lemma_time_format_round_trip(s: Seq<char>)
    requires
        spec_is_padded_clock(s),
    ensures
        spec_time_to_seconds(s) matches Ok(n) && spec_seconds_to_time(n) == s,
{
    lemma_split_clock(s);
    let comps = spec_split_colon(s);
    let hf = seq![s[0], s[1]];
    let mf = seq![s[3], s[4]];
    let sf = seq![s[6], s[7]];
    lemma_two_digit_value(s[0], s[1]);
    lemma_two_digit_value(s[3], s[4]);
    lemma_two_digit_value(s[6], s[7]);
    let h = spec_field_value(hf);
    let m = spec_field_value(mf);
    let sec = spec_field_value(sf);
    assert(h <= 99 && m < 60 && sec < 60);
    assert forall|k: int|
        0 <= k < comps.len() implies (#[trigger] spec_parse_field(comps[k])) is Ok by {
        if k == 0 {
            assert(comps[k] == hf);
            assert(forall|j: int| 0 <= j < hf.len() ==> spec_is_digit(#[trigger] hf[j]));
        } else if k == 1 {
            assert(comps[k] == mf);
            assert(forall|j: int| 0 <= j < mf.len() ==> spec_is_digit(#[trigger] mf[j]));
        } else {
            assert(comps[k] == sf);
            assert(forall|j: int| 0 <= j < sf.len() ==> spec_is_digit(#[trigger] sf[j]));
        }
    }
    let total = h * 3600 + m * 60 + sec;
    assert(spec_time_to_seconds(s) == Ok::<u32, CalcError>(total as u32));
    let n = total as u32;
    assert(n as nat / 3600 == h && n as nat % 60 == sec && (n as nat / 60) % 60 == m && (h == 0
        ==> n as nat / 60 == m)) by (nonlinear_arith)
        requires
            n as nat == h * 3600 + m * 60 + sec,
            h <= 99,
            m < 60,
            sec < 60,
    ;
    lemma_pad2_two_digit(s[0], s[1]);
    lemma_pad2_two_digit(s[3], s[4]);
    lemma_pad2_two_digit(s[6], s[7]);
    assert(spec_seconds_to_time(n) =~= s);
}

/// The scaler is a pure multiplier: with the minutes flag clear the tokens
/// pass through identically; with it set, the operator layout is kept and
/// every duration is exactly sixty times its old value — and the step
/// fails, with `ArithmeticOverflowError`, exactly when some scaled
/// duration would not fit.
pub proof fn lemma_scaler(toks: Seq<Token>)
    ensures
        spec_scale(toks, false) == Ok::<Seq<Token>, CalcError>(toks),
        spec_scale(toks, true) matches Ok(r) ==> r.len() == toks.len() && (forall|k: int|
            0 <= k < toks.len() ==> match #[trigger] toks[k] {
                Token::Duration(v) => r[k] == Token::Duration((v * 60) as u32),
                t => r[k] == t,
            }),
        spec_scale(toks, true) is Ok <==> (forall|k: int|
            0 <= k < toks.len() ==> match #[trigger] toks[k] {
                Token::Duration(v) => v * 60 <= u32::MAX,
                _ => true,
            }),
        spec_scale(toks, true) is Err ==> spec_scale(toks, true) == Err::<Seq<Token>, CalcError>(
            CalcError::ArithmeticOverflowError,
        ),
{
    lemma_inflate_pointwise(toks, 60);
}

/// A chain of duration literals joined by `+` and nothing else: duration
/// tokens at the even positions, `+` at the odd ones.
pub open spec fn spec_is_plus_chain(toks: Seq<Token>) -> bool {
    &&& toks.len() % 2 == 1
    &&& forall|k: int| 0 <= k < toks.len() && k % 2 == 0 ==> (#[trigger] toks[k]) is Duration
    &&& forall|k: int| 0 <= k < toks.len() && k % 2 == 1 ==> (#[trigger] toks[k]) == Token::Plus
}

/// The sum of all duration values in a token sequence.
pub open spec fn spec_chain_sum(toks: Seq<Token>) -> nat
    decreases toks.len(),
{
    if toks.len() == 0 {
        0
    } else {
        (match toks.first() {
            Token::Duration(v) => v as nat,
            _ => 0,
        }) + spec_chain_sum(toks.drop_first())
    }
}

/// The tail of the postfix form of a `+` chain: each remaining operand
/// followed by the `+` that folds it into the running sum.
pub open spec fn spec_interleave(c: Seq<Token>) -> Seq<Token>
    decreases c.len(),
{
    if c.len() <= 1 {
        c.add(seq![Token::Plus])
    } else {
        seq![c[0], Token::Plus].add(spec_interleave(c.skip(2)))
    }
}

/// The postfix form of a `+` chain: the first operand, then each further
/// operand followed by its `+`.
pub open spec fn spec_chain_postfix(c: Seq<Token>) -> Seq<Token> {
    if c.len() <= 1 {
        c
    } else {
        seq![c[0]].add(spec_interleave(c.skip(2)))
    }
}

/// Dropping the first operand and its `+` from a chain leaves a chain.
proof fn lemma_chain_skip2(c: Seq<Token>)
    requires
        spec_is_plus_chain(c),
        c.len() >= 3,
    ensures
        spec_is_plus_chain(c.skip(2)),
{
    let c2 = c.skip(2);
    assert forall|k: int| 0 <= k < c2.len() && k % 2 == 0 implies (#[trigger] c2[k]) is Duration
        by {
        assert(c2[k] == c[k + 2]);
        assert((k + 2) % 2 == 0);
    }
    assert forall|k: int|
        0 <= k < c2.len() && k % 2 == 1 implies (#[trigger] c2[k]) == Token::Plus by {
        assert(c2[k] == c[k + 2]);
        assert((k + 2) % 2 == 1);
    }
}

/// How a chain's sum decomposes around its first operand.
proof fn lemma_chain_sum_skip2(c: Seq<Token>)
    requires
        spec_is_plus_chain(c),
        c.len() >= 3,
    ensures
        spec_chain_sum(c) == c[0]->Duration_0 + spec_chain_sum(c.skip(2)),
{
    assert(c[0] is Duration);
    assert(c.first() == c[0]);
    assert(c[1] == Token::Plus);
    assert(c.drop_first().first() == c[1]);
    assert(c.drop_first().drop_first() =~= c.skip(2));
    assert(spec_chain_sum(c.drop_first()) == spec_chain_sum(c.drop_first().drop_first()));
}

/// Running the shunting-yard tail of a `+` chain with a single `+` on the
/// stack appends exactly the interleaved postfix tail to the output.
proof fn lemma_sy_chain_plus(c: Seq<Token>, out: Seq<Token>)
    requires
        spec_is_plus_chain(c),
    ensures
        spec_sy(c, seq![Token::Plus], out) == Some(out.add(spec_interleave(c))),
    decreases c.len(),
{
    let st = seq![Token::Plus];
    assert(c[0] is Duration);
    assert(c.first() == c[0]);
    let rest = c.drop_first();
    let out1 = out.push(c[0]);
    assert(spec_sy(c, st, out) == spec_sy(rest, st, out1));
    if c.len() == 1 {
        assert(rest.len() == 0);
        assert(st[0] == Token::Plus);
        assert(!st.contains(Token::LeftParen));
        assert(st.reverse() =~= st);
        assert(spec_sy(rest, st, out1) == Some(out1.add(st)));
        assert(spec_interleave(c) == c.add(seq![Token::Plus]));
        assert(out1.add(st) =~= out.add(spec_interleave(c)));
    } else {
        assert(c[1] == Token::Plus);
        assert(rest.first() == c[1]);
        let c2 = c.skip(2);
        assert(rest.drop_first() =~= c2);
        assert(st.drop_last() =~= Seq::<Token>::empty());
        assert(spec_pop_ge(Seq::<Token>::empty(), 1) == (
            Seq::<Token>::empty(),
            Seq::<Token>::empty(),
        ));
        assert(spec_pop_ge(st, 1).0 =~= st);
        assert(spec_pop_ge(st, 1).1 =~= Seq::<Token>::empty());
        assert(Seq::<Token>::empty().push(Token::Plus) =~= st);
        assert(spec_sy(rest, st, out1) == spec_sy(c2, st, out1.add(st)));
        lemma_chain_skip2(c);
        lemma_sy_chain_plus(c2, out1.add(st));
        assert(spec_interleave(c) == seq![c[0], Token::Plus].add(spec_interleave(c2)));
        assert(out1.add(st).add(spec_interleave(c2)) =~= out.add(spec_interleave(c)));
    }
}

/// The shunting-yard conversion of a `+` chain yields its flat postfix
/// form.
proof fn lemma_chain_to_postfix(c: Seq<Token>)
    requires
        spec_is_plus_chain(c),
    ensures
        spec_to_postfix(c) == Some(spec_chain_postfix(c)),
{
    let e = Seq::<Token>::empty();
    assert(c[0] is Duration);
    assert(c.first() == c[0]);
    let rest = c.drop_first();
    assert(e.push(c[0]) =~= seq![c[0]]);
    assert(spec_sy(c, e, e) == spec_sy(rest, e, seq![c[0]]));
    if c.len() == 1 {
        assert(rest.len() == 0);
        assert(!e.contains(Token::LeftParen));
        assert(e.reverse() == e);
        assert(seq![c[0]].add(e) =~= seq![c[0]]);
        assert(c =~= seq![c[0]]);
    } else {
        assert(c[1] == Token::Plus);
        assert(rest.first() == c[1]);
        let c2 = c.skip(2);
        assert(rest.drop_first() =~= c2);
        assert(spec_pop_ge(e, 1) == (e, e));
        assert(e.push(Token::Plus) =~= seq![Token::Plus]);
        assert(seq![c[0]].add(e) =~= seq![c[0]]);
        assert(spec_sy(rest, e, seq![c[0]]) == spec_sy(c2, seq![Token::Plus], seq![c[0]]));
        lemma_chain_skip2(c);
        lemma_sy_chain_plus(c2, seq![c[0]]);
    }
}

/// Every token of a chain's interleaved postfix tail is a duration or `+`.
proof fn lemma_interleave_no_paren(c: Seq<Token>)
    requires
        spec_is_plus_chain(c),
    ensures
        forall|k: int|
            0 <= k < spec_interleave(c).len() ==> (#[trigger] spec_interleave(c)[k]) is Duration
                || spec_interleave(c)[k] == Token::Plus,
    decreases c.len(),
{
    let il = spec_interleave(c);
    if c.len() <= 1 {
        assert forall|k: int|
            0 <= k < il.len() implies (#[trigger] il[k]) is Duration || il[k] == Token::Plus by {
            if k == 0 {
                assert(il[0] == c[0]);
            } else {
                assert(il[k] == Token::Plus);
            }
        }
    } else {
        let c2 = c.skip(2);
        lemma_chain_skip2(c);
        lemma_interleave_no_paren(c2);
        assert forall|k: int|
            0 <= k < il.len() implies (#[trigger] il[k]) is Duration || il[k] == Token::Plus by {
            if k == 0 {
                assert(il[0] == c[0]);
            } else if k == 1 {
                assert(il[1] == Token::Plus);
            } else {
                assert(il[k] == spec_interleave(c2)[k - 2]);
            }
        }
    }
}

/// Evaluating a chain's interleaved postfix tail on top of a value `a`
/// folds the chain's sum into `a`, or reports overflow as soon as the sum
/// leaves the representable range.
proof fn lemma_eval_interleave(c: Seq<Token>, vs: Seq<u32>, a: u32)
    requires
        spec_is_plus_chain(c),
    ensures
        a + spec_chain_sum(c) <= u32::MAX ==> spec_eval_loop(spec_interleave(c), vs.push(a))
            == Ok::<Seq<u32>, CalcError>(vs.push((a + spec_chain_sum(c)) as u32)),
        a + spec_chain_sum(c) > u32::MAX ==> spec_eval_loop(spec_interleave(c), vs.push(a))
            == Err::<Seq<u32>, CalcError>(CalcError::ArithmeticOverflowError),
    decreases c.len(),
{
    let il = spec_interleave(c);
    assert(c[0] is Duration);
    let v0 = c[0]->Duration_0;
    let stack2 = vs.push(a).push(v0);
    assert(stack2.last() == v0);
    assert(stack2[stack2.len() - 2] == a);
    assert(stack2.drop_last() =~= vs.push(a));
    assert(stack2.drop_last().drop_last() =~= vs);
    if c.len() == 1 {
        assert(c =~= seq![c[0]]);
        assert(il =~= seq![c[0], Token::Plus]);
        assert(il.first() == c[0]);
        assert(il.drop_first() =~= seq![Token::Plus]);
        assert(c.drop_first().len() == 0);
        assert(spec_chain_sum(c.drop_first()) == 0);
        assert(spec_chain_sum(c) == v0 as nat);
        assert(spec_eval_loop(il, vs.push(a)) == spec_eval_loop(
            seq![Token::Plus],
            stack2,
        ));
        assert(seq![Token::Plus].first() == Token::Plus);
        assert(seq![Token::Plus].drop_first() =~= Seq::<Token>::empty());
        if a + v0 <= u32::MAX {
            let ns = stack2.drop_last().drop_last().push((a + v0) as u32);
            assert(spec_eval_loop(Seq::<Token>::empty(), ns) == Ok::<Seq<u32>, CalcError>(ns));
            assert(ns == vs.push((a + v0) as u32));
            assert(spec_eval_loop(seq![Token::Plus], stack2) == Ok::<Seq<u32>, CalcError>(
                vs.push((a + v0) as u32),
            ));
        }
    } else {
        let c2 = c.skip(2);
        lemma_chain_skip2(c);
        lemma_chain_sum_skip2(c);
        assert(il == seq![c[0], Token::Plus].add(spec_interleave(c2)));
        assert(il.first() == c[0]);
        assert(il.drop_first() =~= seq![Token::Plus].add(spec_interleave(c2)));
        let il1 = seq![Token::Plus].add(spec_interleave(c2));
        assert(il1.first() == Token::Plus);
        assert(il1.drop_first() =~= spec_interleave(c2));
        assert(spec_eval_loop(il, vs.push(a)) == spec_eval_loop(il1, stack2));
        if a + v0 > u32::MAX {
            assert(spec_eval_loop(il1, stack2) == Err::<Seq<u32>, CalcError>(
                CalcError::ArithmeticOverflowError,
            ));
        } else {
            let a1 = (a + v0) as u32;
            assert(spec_eval_loop(il1, stack2) == spec_eval_loop(
                spec_interleave(c2),
                vs.push(a1),
            ));
            lemma_eval_interleave(c2, vs, a1);
        }
    }
}

/// For an expression that is a chain of duration literals joined by `+`,
/// conversion succeeds, the postfix form carries no parenthesis, and
/// evaluating it yields exactly the sum of all operand second counts — or
/// reports overflow when that sum leaves the representable range.
pub proof fn lemma_plus_chain(toks: Seq<Token>)
    requires
        spec_is_plus_chain(toks),
    ensures
        spec_to_postfix(toks) == Some(spec_chain_postfix(toks)),
        forall|k: int|
            0 <= k < spec_chain_postfix(toks).len() ==> !((#[trigger] spec_chain_postfix(
                toks,
            )[k]) is LeftParen) && !(spec_chain_postfix(toks)[k] is RightParen),
        spec_chain_sum(toks) <= u32::MAX ==> spec_evaluate_postfix(spec_chain_postfix(toks))
            == Ok::<u32, CalcError>(spec_chain_sum(toks) as u32),
        spec_chain_sum(toks) > u32::MAX ==> spec_evaluate_postfix(spec_chain_postfix(toks))
            == Err::<u32, CalcError>(CalcError::ArithmeticOverflowError),
{
    lemma_chain_to_postfix(toks);
    let post = spec_chain_postfix(toks);
    assert(toks[0] is Duration);
    assert(toks.first() == toks[0]);
    let v0 = toks[0]->Duration_0;
    let e = Seq::<u32>::empty();
    if toks.len() == 1 {
        assert(post == toks);
        assert forall|k: int|
            0 <= k < post.len() implies !((#[trigger] post[k]) is LeftParen) && !(post[k]
            is RightParen) by {
            assert(post[0] == toks[0]);
        }
        assert(toks.drop_first().len() == 0);
        assert(spec_chain_sum(toks.drop_first()) == 0);
        assert(spec_chain_sum(toks) == v0 as nat);
        assert(post.first() == toks[0]);
        assert(post.drop_first() =~= Seq::<Token>::empty());
        assert(spec_eval_loop(Seq::<Token>::empty(), e.push(v0)) == Ok::<Seq<u32>, CalcError>(
            e.push(v0),
        ));
        assert(spec_eval_loop(post, e) == Ok::<Seq<u32>, CalcError>(e.push(v0)));
        assert(e.push(v0)[0] == v0);
    } else {
        let c2 = toks.skip(2);
        lemma_chain_skip2(toks);
        lemma_chain_sum_skip2(toks);
        lemma_interleave_no_paren(c2);
        assert(post == seq![toks[0]].add(spec_interleave(c2)));
        assert forall|k: int|
            0 <= k < post.len() implies !((#[trigger] post[k]) is LeftParen) && !(post[k]
            is RightParen) by {
            if k == 0 {
                assert(post[0] == toks[0]);
            } else {
                assert(post[k] == spec_interleave(c2)[k - 1]);
            }
        }
        assert(post.first() == toks[0]);
        assert(post.drop_first() =~= spec_interleave(c2));
        assert(spec_eval_loop(post, e) == spec_eval_loop(spec_interleave(c2), e.push(v0)));
        lemma_eval_interleave(c2, e, v0);
        if spec_chain_sum(toks) <= u32::MAX {
            let total = (v0 + spec_chain_sum(c2)) as u32;
            assert(spec_eval_loop(post, e) == Ok::<Seq<u32>, CalcError>(e.push(total)));
            assert(e.push(total)[0] == total);
        }
    }
}

/// A well-formed expression whose only operators are `+`, with any
/// parenthesisation: a duration literal, a parenthesised expression, or a
/// sum of two such expressions.
pub enum PlusExpr {
    Lit(u32),
    Paren(Box<PlusExpr>),
    Add(Box<PlusExpr>, Box<PlusExpr>),
}

/// The infix token sequence that writes the expression out.
pub open spec fn spec_expr_tokens(e: PlusExpr) -> Seq<Token>
    decreases e,
{
    match e {
        PlusExpr::Lit(v) => seq![Token::Duration(v)],
        PlusExpr::Paren(inner) => seq![Token::LeftParen].add(spec_expr_tokens(*inner)).push(
            Token::RightParen,
        ),
        PlusExpr::Add(l, r) => spec_expr_tokens(*l).push(Token::Plus).add(spec_expr_tokens(*r)),
    }
}

/// The sum of all duration literals in the expression.
pub open spec fn spec_expr_sum(e: PlusExpr) -> nat
    decreases e,
{
    match e {
        PlusExpr::Lit(v) => v as nat,
        PlusExpr::Paren(inner) => spec_expr_sum(*inner),
        PlusExpr::Add(l, r) => spec_expr_sum(*l) + spec_expr_sum(*r),
    }
}

/// What the conversion of the expression leaves on the operator stack
/// until a closing parenthesis or the end of input flushes it: one `+` for
/// a sum, nothing otherwise.
pub open spec fn expr_tail(e: PlusExpr) -> Seq<Token> {
    match e {
        PlusExpr::Add(_, _) => seq![Token::Plus],
        _ => Seq::empty(),
    }
}

/// The postfix form of the expression, as shunting-yard produces it.
pub open spec fn spec_expr_postfix(e: PlusExpr) -> Seq<Token>
    decreases e,
{
    match e {
        PlusExpr::Lit(v) => seq![Token::Duration(v)],
        PlusExpr::Paren(inner) => spec_expr_postfix(*inner),
        PlusExpr::Add(l, r) => spec_expr_postfix(*l).add(expr_out_plus(*r)).push(Token::Plus),
    }
}

/// The output the conversion emits for the expression while a pending `+`
/// sits below it on the stack.
pub open spec fn expr_out_plus(e: PlusExpr) -> Seq<Token>
    decreases e,
{
    match e {
        PlusExpr::Lit(v) => seq![Token::Duration(v)],
        PlusExpr::Paren(inner) => spec_expr_postfix(*inner),
        PlusExpr::Add(l, r) => expr_out_plus(*l).push(Token::Plus).add(expr_out_plus(*r)),
    }
}

/// The output emitted under a barrier (empty or `(`-topped) stack.
pub open spec fn expr_out_barrier(e: PlusExpr) -> Seq<Token> {
    match e {
        PlusExpr::Lit(v) => seq![Token::Duration(v)],
        PlusExpr::Paren(inner) => spec_expr_postfix(*inner),
        PlusExpr::Add(l, r) => spec_expr_postfix(*l).add(expr_out_plus(*r)),
    }
}

/// A stack at which an incoming `+` pops nothing: empty or topped by `(`.
pub open spec fn sy_barrier(s: Seq<Token>) -> bool {
    s.len() == 0 || s.last() == Token::LeftParen
}

/// The postfix form is the barrier output followed by the stack residue.
proof fn lemma_postfix_decomp(e: PlusExpr)
    ensures
        spec_expr_postfix(e) == expr_out_barrier(e).add(expr_tail(e)),
{
    match e {
        PlusExpr::Lit(v) => {
            assert(seq![Token::Duration(v)].add(Seq::<Token>::empty()) =~= seq![
                Token::Duration(v),
            ]);
        },
        PlusExpr::Paren(inner) => {
            assert(spec_expr_postfix(*inner).add(Seq::<Token>::empty()) =~= spec_expr_postfix(
                *inner,
            ));
        },
        PlusExpr::Add(l, r) => {
            assert(spec_expr_postfix(*l).add(expr_out_plus(*r)).add(seq![Token::Plus])
                =~= spec_expr_postfix(*l).add(expr_out_plus(*r)).push(Token::Plus));
        },
    }
}

/// One conversion step: a duration goes straight to the output.
proof fn lemma_sy_dur_step(v: u32, rest: Seq<Token>, s: Seq<Token>, o: Seq<Token>)
    ensures
        spec_sy(seq![Token::Duration(v)].add(rest), s, o) == spec_sy(
            rest,
            s,
            o.push(Token::Duration(v)),
        ),
{
    let toks = seq![Token::Duration(v)].add(rest);
    assert(toks.first() == Token::Duration(v));
    assert(toks.drop_first() =~= rest);
}

/// One conversion step: a `+` arriving at a barrier stack pops nothing.
proof fn lemma_sy_plus_step_barrier(rest: Seq<Token>, s: Seq<Token>, o: Seq<Token>)
    requires
        sy_barrier(s),
    ensures
        spec_sy(seq![Token::Plus].add(rest), s, o) == spec_sy(rest, s.push(Token::Plus), o),
{
    let toks = seq![Token::Plus].add(rest);
    assert(toks.first() == Token::Plus);
    assert(toks.drop_first() =~= rest);
    assert(spec_pop_ge(s, 1) == (Seq::<Token>::empty(), s));
    assert(o.add(Seq::<Token>::empty()) =~= o);
}

/// One conversion step: a `+` arriving over a pending `+` pops it first —
/// the left-associative tie-break.
proof fn lemma_sy_plus_step_plustop(rest: Seq<Token>, s: Seq<Token>, o: Seq<Token>)
    requires
        sy_barrier(s),
    ensures
        spec_sy(seq![Token::Plus].add(rest), s.push(Token::Plus), o) == spec_sy(
            rest,
            s.push(Token::Plus),
            o.push(Token::Plus),
        ),
{
    let toks = seq![Token::Plus].add(rest);
    assert(toks.first() == Token::Plus);
    assert(toks.drop_first() =~= rest);
    let st = s.push(Token::Plus);
    assert(st.last() == Token::Plus);
    assert(st.drop_last() =~= s);
    assert(spec_pop_ge(s, 1) == (Seq::<Token>::empty(), s));
    assert(spec_pop_ge(st, 1).0 =~= seq![Token::Plus]);
    assert(spec_pop_ge(st, 1).1 == s);
    assert(o.add(seq![Token::Plus]) =~= o.push(Token::Plus));
}

/// One conversion step: `(` is pushed onto the stack.
proof fn lemma_sy_lparen_step(rest: Seq<Token>, s: Seq<Token>, o: Seq<Token>)
    ensures
        spec_sy(seq![Token::LeftParen].add(rest), s, o) == spec_sy(
            rest,
            s.push(Token::LeftParen),
            o,
        ),
{
    let toks = seq![Token::LeftParen].add(rest);
    assert(toks.first() == Token::LeftParen);
    assert(toks.drop_first() =~= rest);
}

/// One conversion step: `)` pops the residue above the matching `(` —
/// here nothing or a single `+` — and discards the `(`.
proof fn lemma_sy_rparen_step(rest: Seq<Token>, s: Seq<Token>, o: Seq<Token>, tail: Seq<Token>)
    requires
        tail == Seq::<Token>::empty() || tail == seq![Token::Plus],
    ensures
        spec_sy(seq![Token::RightParen].add(rest), s.push(Token::LeftParen).add(tail), o)
            == spec_sy(rest, s, o.add(tail)),
{
    let toks = seq![Token::RightParen].add(rest);
    assert(toks.first() == Token::RightParen);
    assert(toks.drop_first() =~= rest);
    let sl = s.push(Token::LeftParen);
    assert(spec_pop_until_lparen(sl) == Some((Seq::<Token>::empty(), s)));
    if tail == Seq::<Token>::empty() {
        assert(sl.add(tail) =~= sl);
        assert(o.add(tail) =~= o);
    } else {
        let st = sl.add(tail);
        assert(st =~= sl.push(Token::Plus));
        assert(st.last() == Token::Plus);
        assert(st.drop_last() =~= sl);
        assert(spec_pop_until_lparen(st) == Some((seq![Token::Plus].add(Seq::empty()), s)));
        assert(seq![Token::Plus].add(Seq::<Token>::empty()) =~= seq![Token::Plus]);
    }
}

/// Conversion of an expression under a barrier stack: the barrier output
/// is emitted and the residue is left on the stack.
#[verifier::rlimit(100)]
proof fn lemma_sy_expr_barrier(e: PlusExpr, s: Seq<Token>, o: Seq<Token>, rest: Seq<Token>)
    requires
        sy_barrier(s),
    ensures
        spec_sy(spec_expr_tokens(e).add(rest), s, o) == spec_sy(
            rest,
            s.add(expr_tail(e)),
            o.add(expr_out_barrier(e)),
        ),
    decreases e,
{
    match e {
        PlusExpr::Lit(v) => {
            assert(spec_expr_tokens(e) == seq![Token::Duration(v)]);
            lemma_sy_dur_step(v, rest, s, o);
            assert(s.add(expr_tail(e)) =~= s);
            assert(o.add(expr_out_barrier(e)) =~= o.push(Token::Duration(v)));
        },
        PlusExpr::Paren(inner) => {
            let fi = spec_expr_tokens(*inner);
            assert(spec_expr_tokens(e).add(rest) =~= seq![Token::LeftParen].add(
                fi.add(seq![Token::RightParen].add(rest)),
            ));
            lemma_sy_lparen_step(fi.add(seq![Token::RightParen].add(rest)), s, o);
            lemma_sy_expr_barrier(*inner, s.push(Token::LeftParen), o, seq![
                Token::RightParen,
            ].add(rest));
            lemma_sy_rparen_step(rest, s, o.add(expr_out_barrier(*inner)), expr_tail(*inner));
            lemma_postfix_decomp(*inner);
            assert(o.add(expr_out_barrier(*inner)).add(expr_tail(*inner)) =~= o.add(
                spec_expr_postfix(*inner),
            ));
            assert(s.add(expr_tail(e)) =~= s);
        },
        PlusExpr::Add(l, r) => {
            let fl = spec_expr_tokens(*l);
            let fr = spec_expr_tokens(*r);
            assert(spec_expr_tokens(e).add(rest) =~= fl.add(
                seq![Token::Plus].add(fr.add(rest)),
            ));
            lemma_sy_expr_barrier(*l, s, o, seq![Token::Plus].add(fr.add(rest)));
            let o1 = o.add(expr_out_barrier(*l));
            if expr_tail(*l) == Seq::<Token>::empty() {
                assert(s.add(expr_tail(*l)) =~= s);
                assert(o1.add(expr_tail(*l)) =~= o1);
                lemma_sy_plus_step_barrier(fr.add(rest), s, o1);
            } else {
                assert(s.add(expr_tail(*l)) =~= s.push(Token::Plus));
                assert(o1.add(expr_tail(*l)) =~= o1.push(Token::Plus));
                lemma_sy_plus_step_plustop(fr.add(rest), s, o1);
            }
            lemma_postfix_decomp(*l);
            assert(o1.add(expr_tail(*l)) =~= o.add(spec_expr_postfix(*l)));
            lemma_sy_expr_plus(*r, s, o.add(spec_expr_postfix(*l)), rest);
            assert(o.add(spec_expr_postfix(*l)).add(expr_out_plus(*r)) =~= o.add(
                expr_out_barrier(e),
            ));
            assert(s.add(expr_tail(e)) =~= s.push(Token::Plus));
        },
    }
}

/// Conversion of an expression over a pending `+` on an otherwise barrier
/// stack: its plus-context output is emitted and the pending `+` stays.
#[verifier::rlimit(100)]
proof fn lemma_sy_expr_plus(e: PlusExpr, s: Seq<Token>, o: Seq<Token>, rest: Seq<Token>)
    requires
        sy_barrier(s),
    ensures
        spec_sy(spec_expr_tokens(e).add(rest), s.push(Token::Plus), o) == spec_sy(
            rest,
            s.push(Token::Plus),
            o.add(expr_out_plus(e)),
        ),
    decreases e,
{
    let sp = s.push(Token::Plus);
    match e {
        PlusExpr::Lit(v) => {
            lemma_sy_dur_step(v, rest, sp, o);
            assert(o.add(expr_out_plus(e)) =~= o.push(Token::Duration(v)));
        },
        PlusExpr::Paren(inner) => {
            let fi = spec_expr_tokens(*inner);
            assert(spec_expr_tokens(e).add(rest) =~= seq![Token::LeftParen].add(
                fi.add(seq![Token::RightParen].add(rest)),
            ));
            lemma_sy_lparen_step(fi.add(seq![Token::RightParen].add(rest)), sp, o);
            lemma_sy_expr_barrier(*inner, sp.push(Token::LeftParen), o, seq![
                Token::RightParen,
            ].add(rest));
            lemma_sy_rparen_step(rest, sp, o.add(expr_out_barrier(*inner)), expr_tail(*inner));
            lemma_postfix_decomp(*inner);
            assert(o.add(expr_out_barrier(*inner)).add(expr_tail(*inner)) =~= o.add(
                spec_expr_postfix(*inner),
            ));
        },
        PlusExpr::Add(l, r) => {
            let fl = spec_expr_tokens(*l);
            let fr = spec_expr_tokens(*r);
            assert(spec_expr_tokens(e).add(rest) =~= fl.add(
                seq![Token::Plus].add(fr.add(rest)),
            ));
            lemma_sy_expr_plus(*l, s, o, seq![Token::Plus].add(fr.add(rest)));
            let o1 = o.add(expr_out_plus(*l));
            lemma_sy_plus_step_plustop(fr.add(rest), s, o1);
            lemma_sy_expr_plus(*r, s, o1.push(Token::Plus), rest);
            assert(o1.push(Token::Plus).add(expr_out_plus(*r)) =~= o.add(expr_out_plus(e)));
        },
    }
}


/// The part of an expression's sum that the conversion has already merged
/// into the value below it on the stack when the expression stands in a
/// plus context.
spec fn expr_alpha(e: PlusExpr) -> nat
    decreases e,
{
    match e {
        PlusExpr::Lit(_) => 0,
        PlusExpr::Paren(_) => 0,
        PlusExpr::Add(l, r) => spec_expr_sum(*l) + expr_alpha(*r),
    }
}

/// The value an expression's plus-context output leaves on top of the
/// stack.
spec fn expr_beta(e: PlusExpr) -> nat
    decreases e,
{
    match e {
        PlusExpr::Lit(v) => v as nat,
        PlusExpr::Paren(inner) => spec_expr_sum(*inner),
        PlusExpr::Add(_, r) => expr_beta(*r),
    }
}

/// The merged part and the topmost part together make the whole sum.
proof fn lemma_alpha_beta(e: PlusExpr)
    ensures
        expr_alpha(e) + expr_beta(e) == spec_expr_sum(e),
    decreases e,
{
    match e {
        PlusExpr::Lit(_) => {},
        PlusExpr::Paren(_) => {},
        PlusExpr::Add(l, r) => {
            lemma_alpha_beta(*r);
        },
    }
}

/// One evaluation step: a duration is pushed.
proof fn lemma_eval_push_step(v: u32, rest: Seq<Token>, vs: Seq<u32>)
    ensures
        spec_eval_loop(seq![Token::Duration(v)].add(rest), vs) == spec_eval_loop(
            rest,
            vs.push(v),
        ),
{
    let toks = seq![Token::Duration(v)].add(rest);
    assert(toks.first() == Token::Duration(v));
    assert(toks.drop_first() =~= rest);
}

/// One evaluation step: `+` replaces the two topmost values by their sum.
proof fn lemma_eval_plus_step(x: u32, y: u32, rest: Seq<Token>, vs: Seq<u32>)
    requires
        x + y <= u32::MAX,
    ensures
        spec_eval_loop(seq![Token::Plus].add(rest), vs.push(x).push(y)) == spec_eval_loop(
            rest,
            vs.push((x + y) as u32),
        ),
{
    let toks = seq![Token::Plus].add(rest);
    let st = vs.push(x).push(y);
    assert(toks.first() == Token::Plus);
    assert(toks.drop_first() =~= rest);
    assert(st.last() == y);
    assert(st[st.len() - 2] == x);
    assert(st.drop_last().drop_last() =~= vs);
}

/// Evaluating the postfix form of an expression pushes its sum.
proof fn lemma_eval_post(e: PlusExpr, vs: Seq<u32>, rest: Seq<Token>)
    requires
        spec_expr_sum(e) <= u32::MAX,
    ensures
        spec_eval_loop(spec_expr_postfix(e).add(rest), vs) == spec_eval_loop(
            rest,
            vs.push(spec_expr_sum(e) as u32),
        ),
    decreases e,
{
    match e {
        PlusExpr::Lit(v) => {
            assert(spec_expr_postfix(e) == seq![Token::Duration(v)]);
            lemma_eval_push_step(v, rest, vs);
        },
        PlusExpr::Paren(inner) => {
            lemma_eval_post(*inner, vs, rest);
        },
        PlusExpr::Add(l, r) => {
            assert(spec_expr_postfix(e).add(rest) =~= spec_expr_postfix(*l).add(
                expr_out_plus(*r).add(seq![Token::Plus].add(rest)),
            ));
            lemma_eval_post(*l, vs, expr_out_plus(*r).add(seq![Token::Plus].add(rest)));
            let sl = spec_expr_sum(*l) as u32;
            lemma_alpha_beta(*r);
            lemma_eval_plus(*r, vs, sl, seq![Token::Plus].add(rest));
            let x = (sl as nat + expr_alpha(*r)) as u32;
            let y = expr_beta(*r) as u32;
            lemma_eval_plus_step(x, y, rest, vs);
            assert((x + y) as u32 == spec_expr_sum(e) as u32);
        },
    }
}

/// Evaluating an expression's plus-context output merges its already-summed
/// part into the value below and leaves the rest on top.
proof fn lemma_eval_plus(e: PlusExpr, vs: Seq<u32>, a: u32, rest: Seq<Token>)
    requires
        a + spec_expr_sum(e) <= u32::MAX,
    ensures
        spec_eval_loop(expr_out_plus(e).add(rest), vs.push(a)) == spec_eval_loop(
            rest,
            vs.push((a as nat + expr_alpha(e)) as u32).push(expr_beta(e) as u32),
        ),
    decreases e,
{
    lemma_alpha_beta(e);
    match e {
        PlusExpr::Lit(v) => {
            assert(expr_out_plus(e) == seq![Token::Duration(v)]);
            lemma_eval_push_step(v, rest, vs.push(a));
            assert((a as nat + expr_alpha(e)) as u32 == a);
        },
        PlusExpr::Paren(inner) => {
            lemma_eval_post(*inner, vs.push(a), rest);
            assert((a as nat + expr_alpha(e)) as u32 == a);
        },
        PlusExpr::Add(l, r) => {
            assert(expr_out_plus(e).add(rest) =~= expr_out_plus(*l).add(
                seq![Token::Plus].add(expr_out_plus(*r).add(rest)),
            ));
            lemma_alpha_beta(*l);
            lemma_alpha_beta(*r);
            lemma_eval_plus(*l, vs, a, seq![Token::Plus].add(expr_out_plus(*r).add(rest)));
            let x1 = (a as nat + expr_alpha(*l)) as u32;
            let y1 = expr_beta(*l) as u32;
            lemma_eval_plus_step(x1, y1, expr_out_plus(*r).add(rest), vs);
            let a2 = (a as nat + spec_expr_sum(*l)) as u32;
            assert((x1 + y1) as u32 == a2);
            lemma_eval_plus(*r, vs, a2, rest);
            assert((a2 as nat + expr_alpha(*r)) as u32 == (a as nat + expr_alpha(e)) as u32);
            assert(expr_beta(e) == expr_beta(*r));
        },
    }
}

/// The plus-context output of an expression holds no parenthesis.
proof fn lemma_no_paren_plus(e: PlusExpr)
    ensures
        forall|k: int|
            0 <= k < expr_out_plus(e).len() ==> !((#[trigger] expr_out_plus(e)[k])
                is LeftParen) && !(expr_out_plus(e)[k] is RightParen),
    decreases e,
{
    match e {
        PlusExpr::Lit(v) => {
            assert(expr_out_plus(e) == seq![Token::Duration(v)]);
        },
        PlusExpr::Paren(inner) => {
            lemma_no_paren_post(*inner);
        },
        PlusExpr::Add(l, r) => {
            lemma_no_paren_plus(*l);
            lemma_no_paren_plus(*r);
            let ul = expr_out_plus(*l);
            let ur = expr_out_plus(*r);
            assert(expr_out_plus(e) == ul.push(Token::Plus).add(ur));
            assert forall|k: int|
                0 <= k < expr_out_plus(e).len() implies !((#[trigger] expr_out_plus(e)[k])
                is LeftParen) && !(expr_out_plus(e)[k] is RightParen) by {
                if k < ul.len() {
                    assert(expr_out_plus(e)[k] == ul[k]);
                } else if k == ul.len() {
                    assert(expr_out_plus(e)[k] == Token::Plus);
                } else {
                    assert(expr_out_plus(e)[k] == ur[k - ul.len() - 1]);
                }
            }
        },
    }
}

/// The postfix form of an expression holds no parenthesis.
proof fn lemma_no_paren_post(e: PlusExpr)
    ensures
        forall|k: int|
            0 <= k < spec_expr_postfix(e).len() ==> !((#[trigger] spec_expr_postfix(e)[k])
                is LeftParen) && !(spec_expr_postfix(e)[k] is RightParen),
    decreases e,
{
    match e {
        PlusExpr::Lit(v) => {
            assert(spec_expr_postfix(e) == seq![Token::Duration(v)]);
        },
        PlusExpr::Paren(inner) => {
            lemma_no_paren_post(*inner);
        },
        PlusExpr::Add(l, r) => {
            lemma_no_paren_post(*l);
            lemma_no_paren_plus(*r);
            let pl = spec_expr_postfix(*l);
            let ur = expr_out_plus(*r);
            assert(spec_expr_postfix(e) == pl.add(ur).push(Token::Plus));
            assert forall|k: int|
                0 <= k < spec_expr_postfix(e).len() implies !((#[trigger] spec_expr_postfix(
                e,
            )[k]) is LeftParen) && !(spec_expr_postfix(e)[k] is RightParen) by {
                if k < pl.len() {
                    assert(spec_expr_postfix(e)[k] == pl[k]);
                } else if k < pl.len() + ur.len() {
                    assert(spec_expr_postfix(e)[k] == ur[k - pl.len()]);
                } else {
                    assert(spec_expr_postfix(e)[k] == Token::Plus);
                }
            }
        },
    }
}

/// For a well-formed expression built from duration literals, `+` and any
/// parenthesisation whatever, whose sum is representable: the shunting-yard
/// conversion succeeds, its postfix form is free of parentheses, and
/// evaluating that form yields exactly the sum of all operands.
pub proof fn lemma_plus_expression(e: PlusExpr)
    requires
        spec_expr_sum(e) <= u32::MAX,
    ensures
        spec_to_postfix(spec_expr_tokens(e)) == Some(spec_expr_postfix(e)),
        forall|k: int|
            0 <= k < spec_expr_postfix(e).len() ==> !((#[trigger] spec_expr_postfix(e)[k])
                is LeftParen) && !(spec_expr_postfix(e)[k] is RightParen),
        spec_evaluate_postfix(spec_expr_postfix(e)) == Ok::<u32, CalcError>(
            spec_expr_sum(e) as u32,
        ),
{
    let et = Seq::<Token>::empty();
    assert(spec_expr_tokens(e).add(et) =~= spec_expr_tokens(e));
    lemma_sy_expr_barrier(e, et, et, et);
    let tl = expr_tail(e);
    let ub = expr_out_barrier(e);
    assert(et.add(tl) =~= tl);
    assert(et.add(ub) =~= ub);
    if tl == Seq::<Token>::empty() {
        assert(!tl.contains(Token::LeftParen));
        assert(tl.reverse() =~= tl);
    } else {
        assert(tl == seq![Token::Plus]);
        assert(forall|k: int| 0 <= k < tl.len() ==> tl[k] == Token::Plus);
        assert(!tl.contains(Token::LeftParen));
        assert(tl.reverse() =~= tl);
    }
    lemma_postfix_decomp(e);
    assert(spec_sy(et, tl, ub) == Some(ub.add(tl.reverse())));
    assert(ub.add(tl.reverse()) == spec_expr_postfix(e));
    assert(spec_to_postfix(spec_expr_tokens(e)) == Some(spec_expr_postfix(e)));
    lemma_no_paren_post(e);
    let ev = Seq::<u32>::empty();
    assert(spec_expr_postfix(e).add(et) =~= spec_expr_postfix(e));
    lemma_eval_post(e, ev, et);
    let total = spec_expr_sum(e) as u32;
    assert(spec_eval_loop(et, ev.push(total)) == Ok::<Seq<u32>, CalcError>(ev.push(total)));
    assert(spec_eval_loop(spec_expr_postfix(e), ev) == Ok::<Seq<u32>, CalcError>(
        ev.push(total),
    ));
    assert(ev.push(total).len() == 1);
    assert(ev.push(total)[0] == total);
}

} // verus!
