use std::str::FromStr;

use automaton_trial::regex::Error;
use automaton_trial::Regex;
use automaton_trial::Token;
use automaton_trial::take_token;

#[test]
fn test_take_token_must_return_none_on_input_is_empty() {
    let r = take_token("");
    assert!(r.is_none())
}

#[test]
fn test_take_token_must_return_lit_on_input_starts_with_ordinal_characters() {
    let prefix = "abcde";
    let suffix = "fgh";
    let special_chars = vec!['(', ')', '*', '|'];

    for c in special_chars {
        let input = format!("{prefix}{}{suffix}", c);
        let (token, rest) = take_token(&input).unwrap();
        assert_eq!(token, Token::Literal(prefix.into()));
        assert_eq!(rest, &format!("{}{suffix}", c));
    }
}

#[test]
fn test_take_token_must_return_corresponding_token_on_input_starts_with_special_char() {
    let suffix = "fgh";
    let specials = vec![
        ('(', Token::LParen),
        (')', Token::RParen),
        ('*', Token::Asterisk),
        ('|', Token::VerticalBar),
    ];

    for (c, expected) in specials {
        let input = format!("{}{suffix}", c);
        let (token, rest) = take_token(&input).unwrap();
        assert_eq!(token, expected);
        assert_eq!(rest, &format!("{suffix}"));
    }
}

#[test]
fn test_parse_fails_if_input_contains_repeated_asterisk() {
    let r = Regex::from_str("a**");

    assert_eq!(r.unwrap_err(), Error::UnexpectedToken);
}

#[test]
fn test_parse_empty_input_fails_with_empty() {
    let r = Regex::from_str("");
    assert_eq!(r.unwrap_err(), Error::Empty);
}

#[test]
fn test_parse_unclosed_group_fails_with_unexpected_end() {
    let r = Regex::from_str("(a");
    assert_eq!(r.unwrap_err(), Error::UnexpectedEnd);
}

#[test]
fn test_parse_leading_bar_fails_with_unexpected_token() {
    let r = Regex::from_str("|a");
    assert_eq!(r.unwrap_err(), Error::UnexpectedToken);
}

#[test]
fn test_parse_trailing_bar_fails_with_unexpected_end() {
    let r = Regex::from_str("a|");
    assert_eq!(r.unwrap_err(), Error::UnexpectedEnd);
}

#[test]
fn test_error_messages() {
    assert_eq!(Error::Empty.message(), "input is empty.");
    assert_eq!(Error::UnexpectedEnd.message(), "unexpected end of input.");
    assert_eq!(Error::UnexpectedToken.message(), "unexpected token.");
}

#[test]
fn test_take_token_literal_runs_to_end_of_input() {
    let (token, rest) = take_token("xyz").unwrap();
    assert_eq!(token, Token::Literal("xyz".into()));
    assert_eq!(rest, "");
}

#[test]
fn test_parse_unmatched_closing_paren_fails() {
    let r = Regex::from_str("a)b");
    assert_eq!(r.unwrap_err(), Error::UnexpectedToken);
}
