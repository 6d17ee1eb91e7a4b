//! Tokens of the expression language: integer literals, the seven operators,
//! and parentheses, together with the character classes the tokenizer accepts
//! and the precedence table the converter consults.

use vstd::prelude::*;

verus! {

/// The seven operators, listed from lowest to highest precedence.
#[derive(Debug, PartialEq, Eq, PartialOrd, Ord, Clone, Copy)]
pub enum Operator {
    Add,
    Sub,
    Mul,
    Div,
    Pow,
    Rem,
    Perc,
}

/// A lexical token: a non-negative integer literal, an operator, or a
/// parenthesis (`'('` or `')'` as scanned from the input).
#[derive(Debug, PartialEq, Eq, PartialOrd, Ord, Clone, Copy)]
pub enum Token {
    Number(u32),
    Op(Operator),
    Bracket(char),
}

/// A tokenizer failure: an unrecognized character, or parentheses that do not
/// match up.
#[derive(Debug)]
pub enum Error {
    BadToken(char),
    MismatchedParens,
}

/// The precedence rank of an operator; a higher rank binds tighter.
pub open spec fn spec_precedence(op: Operator) -> int {
    match op {
        Operator::Add => 0,
        Operator::Sub => 1,
        Operator::Mul => 2,
        Operator::Div => 3,
        Operator::Pow => 4,
        Operator::Rem => 5,
        Operator::Perc => 6,
    }
}

/// Executable precedence table.
pub fn precedence(op: &Operator) -> (p: u32)
    ensures
        p == spec_precedence(*op),
{
    match op {
        Operator::Add => 0,
        Operator::Sub => 1,
        Operator::Mul => 2,
        Operator::Div => 3,
        Operator::Pow => 4,
        Operator::Rem => 5,
        Operator::Perc => 6,
    }
}

/// An ASCII decimal digit.
pub open spec fn is_digit(c: char) -> bool {
    48 <= c as u32 <= 57
}

/// The numeric value of a digit character.
pub open spec fn digit_value(c: char) -> int {
    c as u32 - 48
}

/// A character that names an operator.
pub open spec fn is_op_char(c: char) -> bool {
    c == '+' || c == '-' || c == '*' || c == '/' || c == '!' || c == 'm' || c == '%'
}

/// The operator a character names.
pub open spec fn op_of_char(c: char) -> Operator {
    if c == '+' {
        Operator::Add
    } else if c == '-' {
        Operator::Sub
    } else if c == '*' {
        Operator::Mul
    } else if c == '/' {
        Operator::Div
    } else if c == '!' {
        Operator::Pow
    } else if c == 'm' {
        Operator::Rem
    } else {
        Operator::Perc
    }
}

/// Whitespace the tokenizer skips.
pub open spec fn is_space(c: char) -> bool {
    c == ' ' || c == '\n'
}

/// A character the tokenizer accepts.
pub open spec fn is_valid_char(c: char) -> bool {
    is_digit(c) || is_op_char(c) || is_space(c) || c == '(' || c == ')'
}

} // verus!
