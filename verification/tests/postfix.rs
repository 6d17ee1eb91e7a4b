//! The converter and the evaluator on explicit token sequences.

use calculator::calculator::Calculator;
use calculator::rational::{apply, Rational};
use calculator::token::{Operator, Token};

#[test]
fn postfix_of_mixed_precedence() {
    let toks = Calculator::parse("2 + 3 * 4").unwrap();
    let post = Calculator::expression(toks);
    assert_eq!(
        post,
        vec![
            Token::Number(2),
            Token::Number(3),
            Token::Number(4),
            Token::Op(Operator::Mul),
            Token::Op(Operator::Add),
        ]
    );
}

#[test]
fn postfix_drops_brackets() {
    let toks = Calculator::parse("(2 + 3) * 4").unwrap();
    let post = Calculator::expression(toks);
    assert_eq!(
        post,
        vec![
            Token::Number(2),
            Token::Number(3),
            Token::Op(Operator::Add),
            Token::Number(4),
            Token::Op(Operator::Mul),
        ]
    );
}

#[test]
fn subtraction_outranks_addition() {
    // The precedence order is the declaration order, so Sub binds tighter
    // than Add and is flushed when Add arrives.
    let post = Calculator::expression(Calculator::parse("2 - 3 + 4").unwrap());
    assert_eq!(
        post,
        vec![
            Token::Number(2),
            Token::Number(3),
            Token::Op(Operator::Sub),
            Token::Number(4),
            Token::Op(Operator::Add),
        ]
    );
    let r = Calculator::evaluate(post).unwrap();
    assert_eq!(r.num as i128, 3 * r.den as i128);
}

#[test]
fn equal_precedence_pops_to_the_left() {
    let post = Calculator::expression(Calculator::parse("10 - 2 - 3").unwrap());
    assert_eq!(
        post,
        vec![
            Token::Number(10),
            Token::Number(2),
            Token::Op(Operator::Sub),
            Token::Number(3),
            Token::Op(Operator::Sub),
        ]
    );
    let r = Calculator::evaluate(post).unwrap();
    assert_eq!(r.num as i128, 5 * r.den as i128);
}

#[test]
fn empty_sequence_converts_to_empty() {
    assert_eq!(Calculator::expression(Vec::new()), Vec::new());
}

#[test]
fn evaluator_ignores_stray_brackets() {
    let post = vec![
        Token::Number(2),
        Token::Bracket('('),
        Token::Number(3),
        Token::Op(Operator::Add),
    ];
    let r = Calculator::evaluate(post).unwrap();
    assert_eq!(r.num, 5);
    assert_eq!(r.den, 1);
}

#[test]
fn operator_without_operands_gives_no_result() {
    assert!(Calculator::evaluate(vec![Token::Op(Operator::Add)]).is_none());
    assert!(
        Calculator::evaluate(vec![Token::Number(1), Token::Op(Operator::Add)]).is_none()
    );
}

#[test]
fn nested_brackets_never_reach_the_output() {
    let toks = Calculator::parse("((1 + 2) * (3 - 4)) / 2").unwrap();
    let post = Calculator::expression(toks);
    for t in &post {
        assert!(!matches!(t, Token::Bracket(_)));
    }
    let r = Calculator::evaluate(post).unwrap();
    assert_eq!(r.num as i128 * 2, -3 * r.den as i128);
}

#[test]
fn deeply_nested_number_evaluates_to_itself() {
    let toks = Calculator::parse("((((5))))").unwrap();
    let post = Calculator::expression(toks);
    assert_eq!(post, vec![Token::Number(5)]);
    let r = Calculator::evaluate(post).unwrap();
    assert_eq!((r.num, r.den), (5, 1));
}

#[test]
fn apply_adds_unlike_denominators_exactly() {
    let a = Rational { num: 1, den: 2 };
    let b = Rational { num: 1, den: 3 };
    let r = apply(&Operator::Add, &a, &b).unwrap();
    assert_eq!((r.num, r.den), (5, 6));
}

#[test]
fn apply_division_flips_the_sign_into_the_numerator() {
    let a = Rational { num: 1, den: 1 };
    let b = Rational { num: -2, den: 1 };
    let r = apply(&Operator::Div, &a, &b).unwrap();
    assert_eq!((r.num, r.den), (-1, 2));
}
