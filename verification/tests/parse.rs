//! The tokenizer on its own: token shapes, digit accumulation, and the two
//! error variants.

use calculator::calculator::Calculator;
use calculator::token::{Error, Operator, Token};

#[test]
fn digit_string_is_one_number_token() {
    let toks = Calculator::parse("123").unwrap();
    assert_eq!(toks, vec![Token::Number(123)]);
}

#[test]
fn leading_zeros_accumulate_to_the_same_value() {
    let toks = Calculator::parse("007").unwrap();
    assert_eq!(toks, vec![Token::Number(7)]);
}

#[test]
fn digits_merge_across_spaces() {
    // A space emits nothing, so the next digit still extends the trailing
    // number token.
    let toks = Calculator::parse("1 2").unwrap();
    assert_eq!(toks, vec![Token::Number(12)]);
}

#[test]
fn largest_u32_value_parses_exactly() {
    let toks = Calculator::parse("4294967295").unwrap();
    assert_eq!(toks, vec![Token::Number(4294967295)]);
}

#[test]
fn accumulation_wraps_modulo_two_to_the_32() {
    let toks = Calculator::parse("4294967296").unwrap();
    assert_eq!(toks, vec![Token::Number(0)]);
}

#[test]
fn every_operator_symbol_maps_to_its_operator() {
    let toks = Calculator::parse("1+2-3*4/5!6m7%8").unwrap();
    assert_eq!(
        toks,
        vec![
            Token::Number(1),
            Token::Op(Operator::Add),
            Token::Number(2),
            Token::Op(Operator::Sub),
            Token::Number(3),
            Token::Op(Operator::Mul),
            Token::Number(4),
            Token::Op(Operator::Div),
            Token::Number(5),
            Token::Op(Operator::Pow),
            Token::Number(6),
            Token::Op(Operator::Rem),
            Token::Number(7),
            Token::Op(Operator::Perc),
            Token::Number(8),
        ]
    );
}

#[test]
fn brackets_are_emitted_as_tokens() {
    let toks = Calculator::parse("(1)").unwrap();
    assert_eq!(
        toks,
        vec![
            Token::Bracket('('),
            Token::Number(1),
            Token::Bracket(')'),
        ]
    );
}

#[test]
fn empty_input_parses_to_no_tokens() {
    let toks = Calculator::parse("").unwrap();
    assert_eq!(toks, Vec::new());
}

#[test]
fn whitespace_only_parses_to_no_tokens() {
    let toks = Calculator::parse(" \n ").unwrap();
    assert_eq!(toks, Vec::new());
}

#[test]
fn lone_close_is_mismatched() {
    assert!(matches!(
        Calculator::parse(")"),
        Err(Error::MismatchedParens)
    ));
}

#[test]
fn extra_close_is_mismatched() {
    assert!(matches!(
        Calculator::parse("(1))"),
        Err(Error::MismatchedParens)
    ));
}

#[test]
fn lone_open_is_mismatched() {
    assert!(matches!(
        Calculator::parse("("),
        Err(Error::MismatchedParens)
    ));
}

#[test]
fn unclosed_open_is_mismatched() {
    assert!(matches!(
        Calculator::parse("(1 + 2"),
        Err(Error::MismatchedParens)
    ));
}

#[test]
fn unknown_character_is_bad_token() {
    assert!(matches!(
        Calculator::parse("2 x 3"),
        Err(Error::BadToken('x'))
    ));
}

#[test]
fn non_ascii_character_is_bad_token() {
    assert!(matches!(
        Calculator::parse("2 \u{e9} 3"),
        Err(Error::BadToken('\u{e9}'))
    ));
}

#[test]
fn first_error_in_scan_order_wins() {
    // The unmatched close parenthesis comes before the bad character, so the
    // scan stops there.
    assert!(matches!(
        Calculator::parse(") x"),
        Err(Error::MismatchedParens)
    ));
    // And the other way around.
    assert!(matches!(
        Calculator::parse("x )"),
        Err(Error::BadToken('x'))
    ));
}
