//! Scanning an expression string into tokens, and the time-to-seconds rule
//! for duration literals.

use vstd::prelude::*;
use crate::token::CalcError;
use crate::token::Token;
use crate::token::spec_is_operator_char;
use crate::token::spec_op_token;
use crate::token::is_operator;

verus! {

/// A decimal digit character.
pub open spec fn spec_is_digit(c: char) -> bool {
    '0' as u32 <= c as u32 && c as u32 <= '9' as u32
}

/// The numeric value of a decimal digit character (0 for anything else).
pub open spec fn spec_digit_val(c: char) -> nat {
    if spec_is_digit(c) {
        (c as u32 - '0' as u32) as nat
    } else {
        0
    }
}

/// The value of a run of digit characters read as a decimal numeral.
pub open spec fn spec_field_value(s: Seq<char>) -> nat
    decreases s.len(),
{
    if s.len() == 0 {
        0
    } else {
        spec_field_value(s.drop_last()) * 10 + spec_digit_val(s.last())
    }
}

/// Splitting on `':'`, with `cur` the piece read so far; empty pieces are
/// kept, so `":"` splits into two empty pieces.
pub open spec fn spec_split_rec(s: Seq<char>, cur: Seq<char>) -> Seq<Seq<char>>
    decreases s.len(),
{
    if s.len() == 0 {
        seq![cur]
    } else if s.first() == ':' {
        seq![cur].add(spec_split_rec(s.drop_first(), Seq::empty()))
    } else {
        spec_split_rec(s.drop_first(), cur.push(s.first()))
    }
}

/// The `':'`-separated pieces of a duration literal, in source order.
pub open spec fn spec_split_colon(s: Seq<char>) -> Seq<Seq<char>> {
    spec_split_rec(s, Seq::empty())
}

/// How one `':'`-separated field parses: a non-empty all-digit run whose
/// value fits in the duration type parses to that value; anything else is
/// a `ParseError`.
pub open spec fn spec_parse_field(s: Seq<char>) -> Result<u32, CalcError> {
    if s.len() == 0 {
        Err(CalcError::ParseError)
    } else if !(forall|j: int| 0 <= j < s.len() ==> spec_is_digit(s[j])) {
        Err(CalcError::ParseError)
    } else if spec_field_value(s) > u32::MAX {
        Err(CalcError::ParseError)
    } else {
        Ok(spec_field_value(s) as u32)
    }
}

/// The weighted second count of up to three parsed fields, rightmost as
/// seconds, then minutes, then hours.
pub open spec fn spec_weighted_total(comps: Seq<Seq<char>>) -> nat {
    if comps.len() == 1 {
        spec_field_value(comps[0])
    } else if comps.len() == 2 {
        spec_field_value(comps[0]) * 60 + spec_field_value(comps[1])
    } else {
        spec_field_value(comps[0]) * 3600 + spec_field_value(comps[1]) * 60 + spec_field_value(
            comps[2],
        )
    }
}

/// The time-to-seconds rule on a duration literal: split on `':'`; more
/// than three fields or any malformed field is a `ParseError`; a combined
/// value past the duration range is an `ArithmeticOverflowError`.
pub open spec fn spec_time_to_seconds(s: Seq<char>) -> Result<u32, CalcError> {
    let comps = spec_split_colon(s);
    if comps.len() > 3 {
        Err(CalcError::ParseError)
    } else if exists|k: int| 0 <= k < comps.len() && (#[trigger] spec_parse_field(comps[k])) is Err {
        Err(CalcError::ParseError)
    } else if spec_weighted_total(comps) > u32::MAX {
        Err(CalcError::ArithmeticOverflowError)
    } else {
        Ok(spec_weighted_total(comps) as u32)
    }
}

/// Appending a pending literal to the token stream: an empty buffer adds
/// nothing, a non-empty one becomes a `Duration` token or fails as the
/// time-to-seconds rule says.
pub open spec fn spec_flush(buf: Seq<char>, acc: Seq<Token>) -> Result<Seq<Token>, CalcError> {
    if buf.len() == 0 {
        Ok(acc)
    } else {
        match spec_time_to_seconds(buf) {
            Ok(v) => Ok(acc.push(Token::Duration(v))),
            Err(e) => Err(e),
        }
    }
}

/// The tokenizer's scan: digits and `':'` grow the pending literal, an
/// operator or parenthesis flushes it and then stands as its own token,
/// every other character is ignored, and the end of input flushes what
/// remains.
pub open spec fn spec_tokenize_loop(s: Seq<char>, buf: Seq<char>, acc: Seq<Token>) -> Result<
    Seq<Token>,
    CalcError,
>
    decreases s.len(),
{
    if s.len() == 0 {
        spec_flush(buf, acc)
    } else {
        let c = s.first();
        if spec_is_operator_char(c) {
            match spec_flush(buf, acc) {
                Ok(acc2) => spec_tokenize_loop(s.drop_first(), Seq::empty(), acc2.push(spec_op_token(c))),
                Err(e) => Err(e),
            }
        } else if spec_is_digit(c) || c == ':' {
            spec_tokenize_loop(s.drop_first(), buf.push(c), acc)
        } else {
            spec_tokenize_loop(s.drop_first(), buf, acc)
        }
    }
}

/// The token sequence of a raw expression string.
pub open spec fn spec_parse_symbols(s: Seq<char>) -> Result<Seq<Token>, CalcError> {
    spec_tokenize_loop(s, Seq::empty(), Seq::empty())
}

/// A numeral's value only grows as digits are appended to it.
proof fn lemma_field_value_prefix(s: Seq<char>, j: int)
    requires
        0 <= j <= s.len(),
    ensures
        spec_field_value(s.take(j)) <= spec_field_value(s),
    decreases s.len() - j,
{
    if j == s.len() {
        assert(s.take(j) =~= s);
    } else {
        assert(s.take(j + 1).drop_last() =~= s.take(j));
        assert(spec_field_value(s.take(j + 1)) == spec_field_value(s.take(j)) * 10
            + spec_digit_val(s.take(j + 1).last()));
        lemma_field_value_prefix(s, j + 1);
    }
}

/// Parse one all-digit field of a duration literal, as `spec_parse_field`
/// says: a non-empty digit run within range parses to its value, anything
/// else fails with `ParseError`.
fn parse_field(field: &Vec<char>) -> (r: Result<u32, CalcError>)
    ensures
        match r {
            Ok(v) => spec_parse_field(field@) == Ok::<u32, CalcError>(v),
            Err(e) => spec_parse_field(field@) == Err::<u32, CalcError>(e),
        },
{
    if field.len() == 0 {
        return Err(CalcError::ParseError);
    }
    let mut acc: u32 = 0;
    let mut i: usize = 0;
    while i < field.len()
        invariant
            i <= field.len(),
            field.len() > 0,
            forall|j: int| 0 <= j < i ==> spec_is_digit(field@[j]),
            acc as nat == spec_field_value(field@.take(i as int)),
        decreases field.len() - i,
    {
        let c = field[i];
        let u = c as u32;
        proof {
            assert(field@.take(i + 1).drop_last() =~= field@.take(i as int));
            assert(field@.take(i + 1).last() == field@[i as int]);
        }
        if u < 48 || u > 57 {
            assert(!spec_is_digit(field@[i as int]));
            return Err(CalcError::ParseError);
        }
        let d = u - 48;
        let wide: u64 = acc as u64 * 10 + d as u64;
        if wide > 0xFFFF_FFFF {
            proof {
                assert(spec_field_value(field@.take(i + 1)) > u32::MAX);
                lemma_field_value_prefix(field@, i + 1);
            }
            return Err(CalcError::ParseError);
        }
        acc = wide as u32;
        i += 1;
    }
    proof {
        assert(field@.take(field@.len() as int) =~= field@);
    }
    Ok(acc)
}

/// Convert one duration literal, given as its characters, into whole
/// seconds by the time-to-seconds rule: fields split on `':'` count from
/// the rightmost as seconds, minutes (x60) and hours (x3600).
pub fn time_to_seconds(time: &Vec<char>) -> (r: Result<u32, CalcError>)
    ensures
        match r {
            Ok(v) => spec_time_to_seconds(time@) == Ok::<u32, CalcError>(v),
            Err(e) => spec_time_to_seconds(time@) == Err::<u32, CalcError>(e),
        },
{
    let ghost comps = spec_split_colon(time@);
    let ghost mut processed: Seq<Seq<char>> = Seq::empty();
    let mut vals: Vec<u32> = Vec::new();
    let mut cur: Vec<char> = Vec::new();
    let mut i: usize = 0;
    proof {
        assert(time@.skip(0) =~= time@);
    }
    while i < time.len()
        invariant
            i <= time.len(),
            comps == spec_split_colon(time@),
            comps =~= processed.add(spec_split_rec(time@.skip(i as int), cur@)),
            processed.len() == vals.len(),
            forall|k: int|
                0 <= k < processed.len() ==> spec_parse_field(processed[k]) == Ok::<
                    u32,
                    CalcError,
                >(vals@[k]),
        decreases time.len() - i,
    {
        let c = time[i];
        proof {
            assert(time@.skip(i as int).first() == time@[i as int]);
            assert(time@.skip(i as int).drop_first() =~= time@.skip(i + 1));
        }
        if c == ':' {
            match parse_field(&cur) {
                Ok(v) => {
                    vals.push(v);
                    proof {
                        processed = processed.push(cur@);
                    }
                    cur = Vec::new();
                },
                Err(e) => {
                    proof {
                        let k = processed.len() as int;
                        assert(comps[k] == cur@);
                        assert(spec_parse_field(comps[k]) is Err);
                    }
                    return Err(CalcError::ParseError);
                },
            }
        } else {
            cur.push(c);
        }
        i += 1;
    }
    proof {
        assert(time@.skip(time@.len() as int) =~= Seq::<char>::empty());
        assert(comps =~= processed.push(cur@));
    }
    match parse_field(&cur) {
        Ok(v) => {
            vals.push(v);
            proof {
                processed = processed.push(cur@);
            }
        },
        Err(e) => {
            proof {
                let k = processed.len() as int;
                assert(comps[k] == cur@);
                assert(spec_parse_field(comps[k]) is Err);
            }
            return Err(CalcError::ParseError);
        },
    }
    if vals.len() > 3 {
        return Err(CalcError::ParseError);
    }
    assert(forall|k: int|
        0 <= k < comps.len() ==> (#[trigger] spec_parse_field(comps[k])) is Ok);
    let wide: u64 = if vals.len() == 1 {
        vals[0] as u64
    } else if vals.len() == 2 {
        vals[0] as u64 * 60 + vals[1] as u64
    } else {
        vals[0] as u64 * 3600 + vals[1] as u64 * 60 + vals[2] as u64
    };
    assert(wide as nat == spec_weighted_total(comps));
    if wide > 0xFFFF_FFFF {
        Err(CalcError::ArithmeticOverflowError)
    } else {
        Ok(wide as u32)
    }
}

/// The token standing for one operator or parenthesis character.
fn op_token(c: char) -> (t: Token)
    requires
        spec_is_operator_char(c),
    ensures
        t == spec_op_token(c),
{
    if c == '+' {
        Token::Plus
    } else if c == '-' {
        Token::Minus
    } else if c == '*' {
        Token::Times
    } else if c == '/' {
        Token::Divide
    } else if c == '^' {
        Token::Power
    } else if c == '(' {
        Token::LeftParen
    } else {
        Token::RightParen
    }
}

/// Scan a raw expression string into its ordered token sequence. Digits
/// and `':'` accumulate into duration literals, operator and parenthesis
/// characters stand alone, and every other character is silently ignored.
pub fn parse_symbols(input: &str) -> (r: Result<Vec<Token>, CalcError>)
    ensures
        match r {
            Ok(v) => spec_parse_symbols(input@) == Ok::<Seq<Token>, CalcError>(v@),
            Err(e) => spec_parse_symbols(input@) == Err::<Seq<Token>, CalcError>(e),
        },
{
    let n = input.unicode_len();
    let mut symbols: Vec<Token> = Vec::new();
    let mut buf: Vec<char> = Vec::new();
    let mut i: usize = 0;
    proof {
        assert(input@.skip(0) =~= input@);
    }
    while i < n
        invariant
            i <= n,
            n == input@.len(),
            spec_tokenize_loop(input@.skip(i as int), buf@, symbols@) == spec_parse_symbols(
                input@,
            ),
        decreases n - i,
    {
        let c = input.get_char(i);
        let ghost s_i = input@.skip(i as int);
        let ghost buf0 = buf@;
        let ghost sym0 = symbols@;
        proof {
            assert(s_i.first() == input@[i as int]);
            assert(s_i.drop_first() =~= input@.skip(i + 1));
        }
        if is_operator(c) {
            if buf.len() > 0 {
                match time_to_seconds(&buf) {
                    Ok(v) => {
                        symbols.push(Token::Duration(v));
                    },
                    Err(e) => {
                        return Err(e);
                    },
                }
                buf = Vec::new();
            }
            let ghost flushed = symbols@;
            proof {
                assert(buf@ =~= Seq::<char>::empty());
                assert(spec_flush(buf0, sym0) == Ok::<Seq<Token>, CalcError>(flushed));
            }
            symbols.push(op_token(c));
            proof {
                assert(symbols@ == flushed.push(spec_op_token(c)));
                assert(spec_tokenize_loop(s_i, buf0, sym0) == spec_tokenize_loop(
                    input@.skip(i + 1),
                    Seq::empty(),
                    flushed.push(spec_op_token(c)),
                ));
            }
        } else {
            let u = c as u32;
            if (48 <= u && u <= 57) || c == ':' {
                buf.push(c);
                proof {
                    assert(spec_tokenize_loop(s_i, buf0, sym0) == spec_tokenize_loop(
                        input@.skip(i + 1),
                        buf0.push(c),
                        sym0,
                    ));
                }
            } else {
                proof {
                    assert(!spec_is_operator_char(c) && !spec_is_digit(c) && c != ':');
                    assert(spec_tokenize_loop(s_i, buf0, sym0) == spec_tokenize_loop(
                        input@.skip(i + 1),
                        buf0,
                        sym0,
                    ));
                }
            }
        }
        i += 1;
    }
    proof {
        assert(input@.skip(n as int) =~= Seq::<char>::empty());
    }
    if buf.len() > 0 {
        match time_to_seconds(&buf) {
            Ok(v) => {
                symbols.push(Token::Duration(v));
            },
            Err(e) => {
                return Err(e);
            },
        }
    }
    Ok(symbols)
}

} // verus!
