//! End-to-end runs of the pipeline: parse, convert to postfix, evaluate.

use calculator::calculator::Calculator;
use calculator::rational::Rational;

fn eval_str(s: &str) -> Option<Rational> {
    Calculator::evaluate(Calculator::expression(Calculator::parse(s).unwrap()))
}

fn as_f64(r: &Rational) -> f64 {
    r.num as f64 / r.den as f64
}

#[test]
fn round_trip_mixed_operators() {
    let r = eval_str("2 * 2 + 48 / 4").unwrap();
    assert_eq!(r.num as i128, 16 * r.den as i128);
    assert_eq!(as_f64(&r), 16.0);
}

#[test]
fn multiplication_binds_before_addition() {
    let r = eval_str("2 + 3 * 4").unwrap();
    assert_eq!(r.num as i128, 14 * r.den as i128);
    assert_eq!(as_f64(&r), 14.0);
}

#[test]
fn brackets_override_precedence() {
    let r = eval_str("(2 + 3) * 4").unwrap();
    assert_eq!(r.num as i128, 20 * r.den as i128);
    assert_eq!(as_f64(&r), 20.0);
}

#[test]
fn division_by_zero_gives_no_result() {
    assert!(eval_str("4 / 0").is_none());
}

#[test]
fn pow_uses_right_operand_as_base() {
    let r = eval_str("2 ! 3").unwrap();
    assert_eq!(r.num as i128, 9 * r.den as i128);
    assert_eq!(as_f64(&r), 9.0);
}

#[test]
fn pipeline_is_deterministic_across_runs() {
    let text = "(2 + 3) * 4 - 48 / 4 m 5";
    let first = eval_str(text).map(|r| (r.num, r.den));
    let second = eval_str(text).map(|r| (r.num, r.den));
    assert_eq!(first, second);
}

#[test]
fn division_keeps_exact_fractions() {
    let r = eval_str("1 / 3 + 1 / 3 + 1 / 3").unwrap();
    assert_eq!(r.num as i128, r.den as i128);
}

#[test]
fn subtraction_can_go_negative() {
    let r = eval_str("2 - 5").unwrap();
    assert_eq!(r.num as i128, -3 * r.den as i128);
}

#[test]
fn percent_of_value() {
    let r = eval_str("50 % 200").unwrap();
    assert_eq!(r.num as i128, 100 * r.den as i128);
    assert_eq!(as_f64(&r), 100.0);
}

#[test]
fn remainder_follows_left_sign() {
    let r = eval_str("10 m 3").unwrap();
    assert_eq!(r.num as i128, 1 * r.den as i128);
    let r = eval_str("(0 - 7) m 3").unwrap();
    assert_eq!(r.num as i128, -1 * r.den as i128);
}

#[test]
fn zero_exponent_gives_one() {
    let r = eval_str("0 ! 5").unwrap();
    assert_eq!(r.num as i128, 1 * r.den as i128);
}

#[test]
fn zero_base_with_positive_exponent_gives_zero() {
    let r = eval_str("3 ! 0").unwrap();
    assert_eq!(r.num, 0);
}

#[test]
fn negative_exponent_inverts_base() {
    let r = eval_str("(0 - 2) ! 2").unwrap();
    assert_eq!(r.num as i128 * 4, r.den as i128);
    assert_eq!(as_f64(&r), 0.25);
}

#[test]
fn negative_power_of_zero_gives_no_result() {
    assert!(eval_str("(0 - 2) ! 0").is_none());
}

#[test]
fn remainder_by_zero_gives_no_result() {
    assert!(eval_str("5 m 0").is_none());
}

#[test]
fn overflowing_product_gives_no_result() {
    assert!(eval_str("4000000000 * 4000000000").is_none());
}

#[test]
fn two_leftover_values_give_no_result() {
    // "2(3)" tokenizes, converts to the postfix [2, 3], and leaves two
    // values on the evaluator's stack.
    assert!(eval_str("2(3)").is_none());
}

#[test]
fn empty_input_gives_no_result() {
    assert!(eval_str("").is_none());
}
