//! The three-stage pipeline: `parse` scans infix text into tokens,
//! `expression` reorders them into postfix form by the shunting-yard rule, and
//! `evaluate` reduces the postfix stream to a single rational value.

use vstd::prelude::*;

use crate::rational::{apply, sp_apply, Rational};
use crate::token::{
    digit_value, is_digit, is_op_char, is_space, op_of_char, precedence, spec_precedence, Error,
    Operator, Token,
};

verus! {

/// The tokenizer's state machine, one character at a time.
///
/// `toks` is the output built so far and `depth` the number of still-open
/// parentheses. A digit extends a trailing `Number` token in place, with the
/// accumulated value kept modulo 2^32 (the accumulator wraps rather than
/// grows without bound); any other digit starts a new `Number`. A close
/// parenthesis with no open one pending fails at once, and open parentheses
/// still pending at the end of the text fail then.
pub open spec fn spec_parse_rec(s: Seq<char>, toks: Seq<Token>, depth: nat) -> Result<
    Seq<Token>,
    Error,
>
    decreases s.len(),
{
    if s.len() == 0 {
        if depth > 0 {
            Err(Error::MismatchedParens)
        } else {
            Ok(toks)
        }
    } else {
        let c = s[0];
        let rest = s.skip(1);
        if is_digit(c) {
            let toks2 = if toks.len() > 0 && (toks.last() matches Token::Number(_)) {
                let merged = match toks.last() {
                    Token::Number(n) => ((n * 10 + digit_value(c)) % 0x1_0000_0000) as u32,
                    _ => 0u32,
                };
                toks.drop_last().push(Token::Number(merged))
            } else {
                toks.push(Token::Number(digit_value(c) as u32))
            };
            spec_parse_rec(rest, toks2, depth)
        } else if c == '(' {
            spec_parse_rec(rest, toks.push(Token::Bracket('(')), depth + 1)
        } else if c == ')' {
            if depth == 0 {
                Err(Error::MismatchedParens)
            } else {
                spec_parse_rec(rest, toks.push(Token::Bracket(')')), (depth - 1) as nat)
            }
        } else if is_op_char(c) {
            spec_parse_rec(rest, toks.push(Token::Op(op_of_char(c))), depth)
        } else if is_space(c) {
            spec_parse_rec(rest, toks, depth)
        } else {
            Err(Error::BadToken(c))
        }
    }
}

/// What `parse` returns on a given character sequence.
pub open spec fn spec_parse(s: Seq<char>) -> Result<Seq<Token>, Error> {
    spec_parse_rec(s, Seq::empty(), 0)
}

/// One round of popping for the shunting-yard operator rule: while the top of
/// `st` is an operator of precedence at least `p`, move it onto `q`. Returns
/// the remaining stack and the extended queue.
pub open spec fn spec_pop_ge(st: Seq<Token>, q: Seq<Token>, p: int) -> (Seq<Token>, Seq<Token>)
    decreases st.len(),
{
    if st.len() > 0 && (match st.last() {
        Token::Op(o) => spec_precedence(o) >= p,
        _ => false,
    }) {
        spec_pop_ge(st.drop_last(), q.push(st.last()), p)
    } else {
        (st, q)
    }
}

/// Popping for a close parenthesis: move operators from `st` onto `q` until an
/// open parenthesis appears on top, then discard it; if the stack runs out
/// first, stop silently. Returns the remaining stack and the extended queue.
pub open spec fn spec_pop_until_open(st: Seq<Token>, q: Seq<Token>) -> (Seq<Token>, Seq<Token>)
    decreases st.len(),
{
    if st.len() == 0 {
        (st, q)
    } else if st.last() == Token::Bracket('(') {
        (st.drop_last(), q)
    } else {
        spec_pop_until_open(st.drop_last(), q.push(st.last()))
    }
}

/// The shunting-yard conversion, one input token at a time, carrying the
/// operator stack `st` and the output queue `q`. Numbers go straight to the
/// queue; an operator first pops every operator of precedence at least its
/// own (so equal precedence associates to the left); parentheses group
/// without ever reaching the queue; a parenthesis character other than `'('`
/// and `')'` is skipped. At the end the stack is drained onto the queue, top
/// first.
pub open spec fn spec_to_postfix_rec(toks: Seq<Token>, st: Seq<Token>, q: Seq<Token>) -> Seq<
    Token,
>
    decreases toks.len(),
{
    if toks.len() == 0 {
        q + st.reverse()
    } else {
        let t = toks[0];
        let rest = toks.skip(1);
        match t {
            Token::Number(_) => spec_to_postfix_rec(rest, st, q.push(t)),
            Token::Op(o) => {
                let (st2, q2) = spec_pop_ge(st, q, spec_precedence(o));
                spec_to_postfix_rec(rest, st2.push(t), q2)
            },
            Token::Bracket(c) => {
                if c == '(' {
                    spec_to_postfix_rec(rest, st.push(t), q)
                } else if c == ')' {
                    let (st2, q2) = spec_pop_until_open(st, q);
                    spec_to_postfix_rec(rest, st2, q2)
                } else {
                    spec_to_postfix_rec(rest, st, q)
                }
            },
        }
    }
}

/// What `expression` returns on a given token sequence.
pub open spec fn spec_to_postfix(toks: Seq<Token>) -> Seq<Token> {
    spec_to_postfix_rec(toks, Seq::empty(), Seq::empty())
}

/// Postfix reduction over a stack of rational values, one token at a time.
///
/// A number is pushed; an operator takes the top of the stack as its right
/// operand and the value under it as its left operand and pushes what
/// `sp_apply` yields, or settles the whole run as valueless when the
/// operation has none or fewer than two operands are on the stack; a
/// parenthesis is skipped. At the end there must be exactly one value.
pub open spec fn spec_eval_rec(toks: Seq<Token>, st: Seq<(int, int)>) -> Option<(int, int)>
    decreases toks.len(),
{
    if toks.len() == 0 {
        if st.len() == 1 {
            Some(st[0])
        } else {
            None
        }
    } else {
        let rest = toks.skip(1);
        match toks[0] {
            Token::Number(n) => spec_eval_rec(rest, st.push((n as int, 1int))),
            Token::Op(o) => if st.len() < 2 {
                None
            } else {
                match sp_apply(o, st[st.len() - 2], st.last()) {
                    Some(v) => spec_eval_rec(rest, st.drop_last().drop_last().push(v)),
                    None => None,
                }
            },
            Token::Bracket(_) => spec_eval_rec(rest, st),
        }
    }
}

/// What `evaluate` returns on a given token sequence.
pub open spec fn spec_evaluate(toks: Seq<Token>) -> Option<(int, int)> {
    spec_eval_rec(toks, Seq::empty())
}

/// The calculator: stateless, a namespace for the three pipeline stages.
pub struct Calculator {}

impl Calculator {
    /// Scan `expr` left to right into tokens.
    ///
    /// Runs of digits become one `Number` token (decimal accumulation, modulo
    /// 2^32); `+ - * / ! m %` become operators; parentheses are emitted and
    /// checked for matching; space and newline are skipped. The result is
    /// exactly `spec_parse(expr@)`: the first unrecognized character gives
    /// `BadToken`, an unmatched parenthesis gives `MismatchedParens`.
    pub fn parse(expr: &str) -> (res: Result<Vec<Token>, Error>)
        ensures
            match res {
                Ok(toks) => spec_parse(expr@) == Ok::<Seq<Token>, Error>(toks@),
                Err(e) => spec_parse(expr@) == Err::<Seq<Token>, Error>(e),
            },
    {
        let len = expr.unicode_len();
        let mut tokens: Vec<Token> = Vec::new();
        let mut parens: usize = 0;
        let mut i: usize = 0;

        proof {
            assert(expr@.skip(0) =~= expr@);
        }
        while i < len
            invariant
                i <= len,
                len == expr@.len(),
                parens <= i,
                spec_parse_rec(expr@.skip(i as int), tokens@, parens as nat) == spec_parse(
                    expr@,
                ),
            decreases len - i,
        {
            let c = expr.get_char(i);
            proof {
                assert(expr@.skip(i as int)[0] == expr@[i as int]);
                assert(expr@.skip(i as int).skip(1) =~= expr@.skip(i as int + 1));
            }
            let code = c as u32;
            if 48 <= code && code <= 57 {
                let d = code - 48;
                let mut merged = false;
                if tokens.len() > 0 {
                    let last_idx = tokens.len() - 1;
                    match tokens[last_idx] {
                        Token::Number(n) => {
                            let wide: u64 = n as u64 * 10 + d as u64;
                            let narrowed: u32 = (wide % 0x1_0000_0000u64) as u32;
                            tokens.pop();
                            tokens.push(Token::Number(narrowed));
                            merged = true;
                        },
                        _ => {},
                    }
                }
                if !merged {
                    tokens.push(Token::Number(d));
                }
            } else if c == '(' {
                tokens.push(Token::Bracket('('));
                parens = parens + 1;
            } else if c == ')' {
                tokens.push(Token::Bracket(')'));
                if parens == 0 {
                    return Err(Error::MismatchedParens);
                }
                parens = parens - 1;
            } else if c == '+' {
                tokens.push(Token::Op(Operator::Add));
            } else if c == '-' {
                tokens.push(Token::Op(Operator::Sub));
            } else if c == '*' {
                tokens.push(Token::Op(Operator::Mul));
            } else if c == '/' {
                tokens.push(Token::Op(Operator::Div));
            } else if c == '!' {
                tokens.push(Token::Op(Operator::Pow));
            } else if c == 'm' {
                tokens.push(Token::Op(Operator::Rem));
            } else if c == '%' {
                tokens.push(Token::Op(Operator::Perc));
            } else if c == ' ' || c == '\n' {
            } else {
                return Err(Error::BadToken(c));
            }
            i = i + 1;
        }

        proof {
            assert(expr@.skip(len as int) =~= Seq::<char>::empty());
        }
        if parens > 0 {
            return Err(Error::MismatchedParens);
        }
        Ok(tokens)
    }

    /// Reorder infix `tokens` into postfix form by the shunting-yard rule.
    ///
    /// Numbers pass straight through; an operator first flushes every stacked
    /// operator of precedence at least its own; parentheses group and are
    /// dropped. The result is exactly `spec_to_postfix(tokens@)`. Bracket
    /// matching is not re-validated here: the tokenizer has already checked
    /// it, and on unbalanced input the unbalanced parentheses simply pass
    /// into the output.
    pub fn expression(tokens: Vec<Token>) -> (res: Vec<Token>)
        ensures
            res@ == spec_to_postfix(tokens@),
    {
        let mut queue: Vec<Token> = Vec::new();
        let mut stack: Vec<Token> = Vec::new();
        let n = tokens.len();
        let mut i: usize = 0;

        proof {
            assert(tokens@.skip(0) =~= tokens@);
        }
        while i < n
            invariant
                i <= n,
                n == tokens@.len(),
                spec_to_postfix_rec(tokens@.skip(i as int), stack@, queue@) == spec_to_postfix(
                    tokens@,
                ),
            decreases n - i,
        {
            proof {
                assert(tokens@.skip(i as int)[0] == tokens@[i as int]);
                assert(tokens@.skip(i as int).skip(1) =~= tokens@.skip(i as int + 1));
            }
            let t = tokens[i];
            match t {
                Token::Number(_) => {
                    queue.push(t);
                },
                Token::Op(o) => {
                    let p = precedence(&o);
                    let mut go = Self::top_prec_at_least(&stack, p);
                    while go
                        invariant
                            go == (stack@.len() > 0 && (match stack@.last() {
                                Token::Op(top) => spec_precedence(top) >= p,
                                _ => false,
                            })),
                            ({
                                let (st2, q2) = spec_pop_ge(stack@, queue@, p as int);
                                spec_to_postfix_rec(
                                    tokens@.skip(i as int + 1),
                                    st2.push(t),
                                    q2,
                                ) == spec_to_postfix(tokens@)
                            }),
                        decreases stack@.len(),
                    {
                        let popped = stack.pop().unwrap();
                        queue.push(popped);
                        go = Self::top_prec_at_least(&stack, p);
                    }
                    stack.push(t);
                },
                Token::Bracket(c) => {
                    if c == '(' {
                        stack.push(t);
                    } else if c == ')' {
                        let mut go = Self::top_is_not_open(&stack);
                        while go
                            invariant
                                go == (stack@.len() > 0 && stack@.last() != Token::Bracket('(')),
                                ({
                                    let (st2, q2) = spec_pop_until_open(stack@, queue@);
                                    spec_to_postfix_rec(
                                        tokens@.skip(i as int + 1),
                                        st2,
                                        q2,
                                    ) == spec_to_postfix(tokens@)
                                }),
                            decreases stack@.len(),
                        {
                            let popped = stack.pop().unwrap();
                            queue.push(popped);
                            go = Self::top_is_not_open(&stack);
                        }
                        if stack.len() > 0 {
                            stack.pop();
                        }
                    }
                },
            }
            i = i + 1;
        }

        proof {
            assert(tokens@.skip(n as int) =~= Seq::<Token>::empty());
        }
        while stack.len() > 0
            invariant
                queue@ + stack@.reverse() == spec_to_postfix(tokens@),
            decreases stack@.len(),
        {
            let popped = stack.pop().unwrap();
            proof {
                let st = stack@.push(popped);
                assert(st.reverse()[0] == popped);
                assert(st.reverse().skip(1) =~= stack@.reverse());
                assert(queue@ + st.reverse() =~= queue@.push(popped) + stack@.reverse());
            }
            queue.push(popped);
        }
        proof {
            assert(queue@ + stack@.reverse() =~= queue@);
        }
        queue
    }

    /// Reduce postfix `tokens` to a single exact rational value.
    ///
    /// Numbers are pushed on a value stack; an operator pops its right
    /// operand, then its left, and pushes the operation's exact result. The
    /// answer is exactly `spec_evaluate(tokens@)`: it is absent when a
    /// division or remainder by zero occurs, when a negative power of zero is
    /// taken, when a result leaves the representable range, when an operator
    /// finds fewer than two operands, and when the stack does not end with
    /// exactly one value.
    pub fn evaluate(tokens: Vec<Token>) -> (res: Option<Rational>)
        ensures
            match res {
                Some(v) => v.wf() && spec_evaluate(tokens@) == Some(v@),
                None => spec_evaluate(tokens@) is None,
            },
    {
        let mut stack: Vec<Rational> = Vec::new();
        let n = tokens.len();
        let mut i: usize = 0;

        proof {
            assert(tokens@.skip(0) =~= tokens@);
            assert(stack@.map_values(|x: Rational| x@) =~= Seq::<(int, int)>::empty());
        }
        while i < n
            invariant
                i <= n,
                n == tokens@.len(),
                forall|j: int| 0 <= j < stack@.len() ==> (#[trigger] stack@[j]).wf(),
                spec_eval_rec(tokens@.skip(i as int), stack@.map_values(|x: Rational| x@))
                    == spec_evaluate(tokens@),
            decreases n - i,
        {
            proof {
                assert(tokens@.skip(i as int)[0] == tokens@[i as int]);
                assert(tokens@.skip(i as int).skip(1) =~= tokens@.skip(i as int + 1));
            }
            let ghost st0 = stack@.map_values(|x: Rational| x@);
            let t = tokens[i];
            match t {
                Token::Number(nv) => {
                    let rv = Rational::from_u32(nv);
                    stack.push(rv);
                    proof {
                        assert(stack@.map_values(|x: Rational| x@) =~= st0.push(rv@));
                    }
                },
                Token::Op(o) => {
                    if stack.len() < 2 {
                        return None;
                    }
                    let right = stack.pop().unwrap();
                    let left = stack.pop().unwrap();
                    proof {
                        assert(st0[st0.len() - 2] == left@);
                        assert(st0.last() == right@);
                    }
                    match apply(&o, &left, &right) {
                        Some(v) => {
                            stack.push(v);
                            proof {
                                assert(stack@.map_values(|x: Rational| x@)
                                    =~= st0.drop_last().drop_last().push(v@));
                            }
                        },
                        None => {
                            return None;
                        },
                    }
                },
                Token::Bracket(_) => {},
            }
            i = i + 1;
        }

        proof {
            assert(tokens@.skip(n as int) =~= Seq::<Token>::empty());
        }
        if stack.len() == 1 {
            let v = stack.pop().unwrap();
            proof {
                assert(stack@.map_values(|x: Rational| x@).push(v@)[0] == v@);
            }
            Some(v)
        } else {
            None
        }
    }

    /// True when the converter's operator rule must pop: the top of `stack`
    /// is an operator of precedence at least `p`.
    fn top_prec_at_least(stack: &Vec<Token>, p: u32) -> (b: bool)
        ensures
            b == (stack@.len() > 0 && (match stack@.last() {
                Token::Op(top) => spec_precedence(top) >= p,
                _ => false,
            })),
    {
        if stack.len() == 0 {
            return false;
        }
        match stack[stack.len() - 1] {
            Token::Op(top) => precedence(&top) >= p,
            _ => false,
        }
    }

    /// True while a close parenthesis must keep popping: the stack is
    /// non-empty and its top is not an open parenthesis.
    fn top_is_not_open(stack: &Vec<Token>) -> (b: bool)
        ensures
            b == (stack@.len() > 0 && stack@.last() != Token::Bracket('(')),
    {
        if stack.len() == 0 {
            return false;
        }
        match stack[stack.len() - 1] {
            Token::Bracket(c) => c != '(',
            _ => true,
        }
    }
}

} // verus!
