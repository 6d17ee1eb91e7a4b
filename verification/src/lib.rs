//! An arithmetic expression calculator: a tokenizer for infix text, an
//! infix-to-postfix converter (shunting yard), and a postfix evaluator over
//! exact rational values.

pub mod calculator;
pub mod laws;
pub mod rational;
pub mod token;
