//! Formatting a second count back into zero-padded `HH:MM:SS` clock notation.

use vstd::prelude::*;

verus! {

/// The decimal digit character for a value below ten.
pub open spec fn spec_digit_char(d: nat) -> char {
    if d == 0 {
        '0'
    } else if d == 1 {
        '1'
    } else if d == 2 {
        '2'
    } else if d == 3 {
        '3'
    } else if d == 4 {
        '4'
    } else if d == 5 {
        '5'
    } else if d == 6 {
        '6'
    } else if d == 7 {
        '7'
    } else if d == 8 {
        '8'
    } else {
        '9'
    }
}

/// The ordinary decimal rendering of `n`, without leading zeros
/// (`0` renders as `"0"`).
pub open spec fn spec_decimal(n: nat) -> Seq<char>
    decreases n,
{
    if n < 10 {
        seq![spec_digit_char(n)]
    } else {
        spec_decimal(n / 10).push(spec_digit_char(n % 10))
    }
}

/// The decimal rendering of `n` padded with `'0'` to at least two characters.
pub open spec fn spec_pad2(n: nat) -> Seq<char> {
    if n < 10 {
        seq!['0'].add(spec_decimal(n))
    } else {
        spec_decimal(n)
    }
}

/// The clock rendering of a second count: `hours = n / 3600`,
/// `seconds = n % 60`, and `minutes = n / 60` when the hour field is zero
/// but `(n / 60) % 60` otherwise — the asymmetry is a deliberately kept
/// quirk of the engine (for `hours == 0` the two expressions agree anyway,
/// since `n / 60 < 60` there).
pub open spec fn spec_seconds_to_time(n: u32) -> Seq<char> {
    let hours = n as nat / 3600;
    let minutes = if hours == 0 {
        n as nat / 60
    } else {
        (n as nat / 60) % 60
    };
    let seconds = n as nat % 60;
    spec_pad2(hours).add(seq![':']).add(spec_pad2(minutes)).add(seq![':']).add(
        spec_pad2(seconds),
    )
}

/// The one-character string for a decimal digit.
fn digit_str(d: u32) -> (r: &'static str)
    requires
        d < 10,
    ensures
        r@ == seq![spec_digit_char(d as nat)],
{
    if d == 0 {
        let s = "0";
        proof {
            reveal_strlit("0");
            assert(s@ =~= seq![spec_digit_char(d as nat)]);
        }
        s
    } else if d == 1 {
        let s = "1";
        proof {
            reveal_strlit("1");
            assert(s@ =~= seq![spec_digit_char(d as nat)]);
        }
        s
    } else if d == 2 {
        let s = "2";
        proof {
            reveal_strlit("2");
            assert(s@ =~= seq![spec_digit_char(d as nat)]);
        }
        s
    } else if d == 3 {
        let s = "3";
        proof {
            reveal_strlit("3");
            assert(s@ =~= seq![spec_digit_char(d as nat)]);
        }
        s
    } else if d == 4 {
        let s = "4";
        proof {
            reveal_strlit("4");
            assert(s@ =~= seq![spec_digit_char(d as nat)]);
        }
        s
    } else if d == 5 {
        let s = "5";
        proof {
            reveal_strlit("5");
            assert(s@ =~= seq![spec_digit_char(d as nat)]);
        }
        s
    } else if d == 6 {
        let s = "6";
        proof {
            reveal_strlit("6");
            assert(s@ =~= seq![spec_digit_char(d as nat)]);
        }
        s
    } else if d == 7 {
        let s = "7";
        proof {
            reveal_strlit("7");
            assert(s@ =~= seq![spec_digit_char(d as nat)]);
        }
        s
    } else if d == 8 {
        let s = "8";
        proof {
            reveal_strlit("8");
            assert(s@ =~= seq![spec_digit_char(d as nat)]);
        }
        s
    } else {
        let s = "9";
        proof {
            reveal_strlit("9");
            assert(s@ =~= seq![spec_digit_char(d as nat)]);
        }
        s
    }
}

/// Decimal rendering of `n`, matching `spec_decimal`.
fn decimal_string(n: u32) -> (r: String)
    ensures
        r@ == spec_decimal(n as nat),
    decreases n,
{
    if n < 10 {
        String::from_str(digit_str(n))
    } else {
        let prefix = decimal_string(n / 10);
        let r = prefix.concat(digit_str(n % 10));
        proof {
            assert(r@ =~= spec_decimal(n as nat));
        }
        r
    }
}

/// Decimal rendering of `n` zero-padded to at least two characters.
fn pad2_string(n: u32) -> (r: String)
    ensures
        r@ == spec_pad2(n as nat),
{
    if n < 10 {
        let zero = String::from_str("0");
        let r = zero.concat(digit_str(n));
        proof {
            reveal_strlit("0");
            assert(r@ =~= spec_pad2(n as nat));
        }
        r
    } else {
        decimal_string(n)
    }
}

/// Format a non-negative second count as zero-padded `HH:MM:SS`
/// clock notation.
pub fn seconds_to_time(input: u32) -> (r: String)
    ensures
        r@ == spec_seconds_to_time(input),
{
    let hours = input / 3600;
    let minutes = if hours == 0 {
        input / 60
    } else {
        (input / 60) % 60
    };
    let seconds = input % 60;
    let hour_part = pad2_string(hours);
    let minute_part = pad2_string(minutes);
    let second_part = pad2_string(seconds);
    let mut r = hour_part;
    r.append(":");
    r.append(minute_part.as_str());
    r.append(":");
    r.append(second_part.as_str());
    proof {
        reveal_strlit(":");
        assert(r@ =~= spec_seconds_to_time(input));
    }
    r
}

} // verus!
