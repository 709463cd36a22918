use timecalc::engine::evaluate_expression;
use timecalc::formatter::seconds_to_time;
use timecalc::scaler::inflate_values;
use timecalc::token::CalcError;
use timecalc::token::Token;
use timecalc::token::is_operator;
use timecalc::token::priority;
use timecalc::tokenizer::time_to_seconds;

fn chars_of(s: &str) -> Vec<char> {
    s.chars().collect()
}

#[test]
fn time_literal_parsing() {
    assert_eq!(time_to_seconds(&chars_of("01:02:03")), Ok(3723));
    assert_eq!(time_to_seconds(&chars_of("02:03")), Ok(123));
    assert_eq!(time_to_seconds(&chars_of("5")), Ok(5));
}

#[test]
fn malformed_time_literals() {
    assert_eq!(time_to_seconds(&chars_of("")), Err(CalcError::ParseError));
    assert_eq!(time_to_seconds(&chars_of("10::5")), Err(CalcError::ParseError));
    assert_eq!(
        time_to_seconds(&chars_of("1:2:3:4")),
        Err(CalcError::ParseError)
    );
    assert_eq!(
        evaluate_expression("10::5 + 1", false),
        Err(CalcError::ParseError)
    );
    assert_eq!(
        evaluate_expression("1:2:3:4", false),
        Err(CalcError::ParseError)
    );
}

#[test]
fn oversized_time_literal_overflows() {
    // 2000000:00:00 is 7.2e9 seconds, past the u32 range.
    assert_eq!(
        time_to_seconds(&chars_of("2000000:00:00")),
        Err(CalcError::ArithmeticOverflowError)
    );
}

#[test]
fn formatter_pads_and_wraps() {
    assert_eq!(seconds_to_time(0), "00:00:00");
    assert_eq!(seconds_to_time(5), "00:00:05");
    assert_eq!(seconds_to_time(196), "00:03:16");
    assert_eq!(seconds_to_time(3599), "00:59:59");
    assert_eq!(seconds_to_time(3723), "01:02:03");
    assert_eq!(seconds_to_time(360000), "100:00:00");
}

#[test]
fn format_round_trips_a_clock_string() {
    let parsed = time_to_seconds(&chars_of("01:02:03")).unwrap();
    assert_eq!(seconds_to_time(parsed), "01:02:03");
    let parsed = time_to_seconds(&chars_of("23:59:59")).unwrap();
    assert_eq!(seconds_to_time(parsed), "23:59:59");
    let parsed = time_to_seconds(&chars_of("00:00:00")).unwrap();
    assert_eq!(seconds_to_time(parsed), "00:00:00");
}

#[test]
fn scaler_multiplies_durations_only() {
    let tokens = vec![
        Token::Duration(2),
        Token::Plus,
        Token::LeftParen,
        Token::Duration(3),
        Token::RightParen,
    ];
    assert_eq!(
        inflate_values(tokens, 60),
        Ok(vec![
            Token::Duration(120),
            Token::Plus,
            Token::LeftParen,
            Token::Duration(180),
            Token::RightParen,
        ])
    );
}

#[test]
fn scaler_reports_overflow() {
    let tokens = vec![Token::Duration(u32::MAX)];
    assert_eq!(
        inflate_values(tokens, 60),
        Err(CalcError::ArithmeticOverflowError)
    );
}

#[test]
fn minutes_flag_scales_every_duration() {
    assert_eq!(
        evaluate_expression("1 + 1", true),
        Ok(String::from("00:02:00"))
    );
    // Clock literals are already seconds by the time the scaler runs, so
    // the flag scales them too.
    assert_eq!(
        evaluate_expression("01:00", true),
        Ok(String::from("01:00:00"))
    );
    assert_eq!(
        evaluate_expression("1 + 1", false),
        Ok(String::from("00:00:02"))
    );
}

#[test]
fn operator_characters_and_priorities() {
    for c in ['+', '-', '*', '/', '^', '(', ')'] {
        assert!(is_operator(c));
    }
    assert!(!is_operator('1'));
    assert!(!is_operator(':'));
    assert!(!is_operator(' '));
    assert_eq!(priority(&Token::Plus), 1);
    assert_eq!(priority(&Token::Minus), 1);
    assert_eq!(priority(&Token::Times), 2);
    assert_eq!(priority(&Token::Divide), 2);
    assert_eq!(priority(&Token::Power), 3);
    assert_eq!(priority(&Token::LeftParen), 0);
    assert_eq!(priority(&Token::Duration(7)), 0);
}
