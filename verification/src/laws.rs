//! Laws of the pipeline, stated over the same spec functions the three
//! stages' contracts use: what the tokenizer does with a digit-only string,
//! when it must reject mismatched parentheses or a foreign character, and
//! that the whole pipeline is a pure function of its input text.

use vstd::arithmetic::div_mod::{
    lemma_add_mod_noop, lemma_mod_twice, lemma_mul_mod_noop_left, lemma_small_mod,
};
use vstd::prelude::*;

use crate::calculator::{
    spec_evaluate, spec_parse, spec_parse_rec, spec_pop_ge, spec_pop_until_open, spec_to_postfix,
    spec_to_postfix_rec,
};
use crate::token::{
    digit_value, is_digit, is_op_char, is_space, is_valid_char, op_of_char, spec_precedence,
    Error, Token,
};

verus! {

/// Decimal accumulation from the left, starting at `acc`: each digit
/// multiplies the total by ten and adds itself.
pub open spec fn decimal_fold(acc: int, s: Seq<char>) -> int
    decreases s.len(),
{
    if s.len() == 0 {
        acc
    } else {
        decimal_fold(acc * 10 + digit_value(s[0]), s.skip(1))
    }
}

/// The decimal interpretation of a digit string.
pub open spec fn decimal_value(s: Seq<char>) -> int {
    decimal_fold(0, s)
}

/// One step of the tokenizer's accumulator: a digit folded in, modulo 2^32.
pub open spec fn wrap_step(a: u32, c: char) -> u32 {
    ((a * 10 + digit_value(c)) % 0x1_0000_0000) as u32
}

/// The tokenizer's accumulator run over a whole digit string.
pub open spec fn wrap_fold(a: u32, s: Seq<char>) -> u32
    decreases s.len(),
{
    if s.len() == 0 {
        a
    } else {
        wrap_fold(wrap_step(a, s[0]), s.skip(1))
    }
}

/// Folding digits commutes with reduction modulo 2^32.
proof fn lemma_fold_mod(x: int, s: Seq<char>)
    requires
        forall|i: int| 0 <= i < s.len() ==> is_digit(#[trigger] s[i]),
    ensures
        decimal_fold(x % 0x1_0000_0000, s) % 0x1_0000_0000 == decimal_fold(x, s)
            % 0x1_0000_0000,
    decreases s.len(),
{
    let m: int = 0x1_0000_0000;
    if s.len() == 0 {
        lemma_mod_twice(x, m);
    } else {
        let d = digit_value(s[0]);
        let rest = s.skip(1);
        lemma_mul_mod_noop_left(x, 10, m);
        lemma_add_mod_noop((x % m) * 10, d, m);
        lemma_add_mod_noop(x * 10, d, m);
        lemma_mod_twice(x * 10, m);
        lemma_mod_twice(d, m);
        assert(((x % m) * 10 + d) % m == (x * 10 + d) % m);
        lemma_fold_mod((x % m) * 10 + d, rest);
        lemma_fold_mod(x * 10 + d, rest);
        assert(((x % m) * 10 + d) % m == ((x * 10 + d) % m));
        assert(decimal_fold((x % m) * 10 + d, rest) % m == decimal_fold(
            ((x % m) * 10 + d) % m,
            rest,
        ) % m);
    }
}

/// The wrapping accumulator computes the decimal value modulo 2^32.
proof fn lemma_wrap_fold_is_decimal(a: u32, s: Seq<char>)
    requires
        forall|i: int| 0 <= i < s.len() ==> is_digit(#[trigger] s[i]),
    ensures
        wrap_fold(a, s) == decimal_fold(a as int, s) % 0x1_0000_0000,
    decreases s.len(),
{
    let m: int = 0x1_0000_0000;
    if s.len() == 0 {
        lemma_small_mod(a as nat, m as nat);
    } else {
        let d = digit_value(s[0]);
        let rest = s.skip(1);
        lemma_wrap_fold_is_decimal(wrap_step(a, s[0]), rest);
        lemma_fold_mod(a * 10 + d, rest);
    }
}

/// The tokenizer turns a run of digits appended to a trailing `Number(a)`
/// into that number with the digits folded in.
proof fn lemma_scan_digits(s: Seq<char>, pre: Seq<Token>, a: u32, depth: nat)
    requires
        forall|i: int| 0 <= i < s.len() ==> is_digit(#[trigger] s[i]),
    ensures
        spec_parse_rec(s, pre.push(Token::Number(a)), depth) == if depth > 0 {
            Err::<Seq<Token>, Error>(Error::MismatchedParens)
        } else {
            Ok::<Seq<Token>, Error>(pre.push(Token::Number(wrap_fold(a, s))))
        },
    decreases s.len(),
{
    if s.len() > 0 {
        let c = s[0];
        let toks = pre.push(Token::Number(a));
        assert(toks.drop_last() =~= pre);
        lemma_scan_digits(s.skip(1), pre, wrap_step(a, c), depth);
    }
}

/// A string of digits parses to exactly one `Number` token holding its
/// decimal value modulo 2^32 — so its decimal value itself whenever that
/// value is below 2^32.
pub proof fn lemma_parse_digit_string(s: Seq<char>)
    requires
        s.len() > 0,
        forall|i: int| 0 <= i < s.len() ==> is_digit(#[trigger] s[i]),
    ensures
        spec_parse(s) == Ok::<Seq<Token>, Error>(
            seq![Token::Number((decimal_value(s) % 0x1_0000_0000) as u32)],
        ),
        0 <= decimal_value(s) < 0x1_0000_0000 ==> spec_parse(s) == Ok::<Seq<Token>, Error>(
            seq![Token::Number(decimal_value(s) as u32)],
        ),
{
    let m: int = 0x1_0000_0000;
    let d0 = digit_value(s[0]) as u32;
    let rest = s.skip(1);
    assert(Seq::<Token>::empty().push(Token::Number(d0)) =~= seq![Token::Number(d0)]);
    lemma_scan_digits(rest, Seq::<Token>::empty(), d0, 0);
    lemma_wrap_fold_is_decimal(d0, rest);
    assert(decimal_value(s) == decimal_fold(d0 as int, rest));
    if 0 <= decimal_value(s) < m {
        lemma_small_mod(decimal_value(s) as nat, m as nat);
    }
}

/// The tokenizer's scan meets a close parenthesis with no open one pending,
/// before it meets any character it does not accept.
pub open spec fn scan_hits_unmatched_close(s: Seq<char>, depth: nat) -> bool
    decreases s.len(),
{
    if s.len() == 0 {
        false
    } else {
        let c = s[0];
        if !is_valid_char(c) {
            false
        } else if c == '(' {
            scan_hits_unmatched_close(s.skip(1), depth + 1)
        } else if c == ')' {
            if depth == 0 {
                true
            } else {
                scan_hits_unmatched_close(s.skip(1), (depth - 1) as nat)
            }
        } else {
            scan_hits_unmatched_close(s.skip(1), depth)
        }
    }
}

/// How many parentheses are still open after the whole text, unmatched
/// closes ignored.
pub open spec fn open_depth(s: Seq<char>, depth: nat) -> nat
    decreases s.len(),
{
    if s.len() == 0 {
        depth
    } else {
        let c = s[0];
        if c == '(' {
            open_depth(s.skip(1), depth + 1)
        } else if c == ')' {
            open_depth(s.skip(1), if depth == 0 {
                0
            } else {
                (depth - 1) as nat
            })
        } else {
            open_depth(s.skip(1), depth)
        }
    }
}

/// The character at which the tokenizer's scan fails first, if it is an
/// unrecognized one rather than an unmatched close parenthesis.
pub open spec fn scan_bad_char(s: Seq<char>, depth: nat) -> Option<char>
    decreases s.len(),
{
    if s.len() == 0 {
        None
    } else {
        let c = s[0];
        if !is_valid_char(c) {
            Some(c)
        } else if c == '(' {
            scan_bad_char(s.skip(1), depth + 1)
        } else if c == ')' {
            if depth == 0 {
                None
            } else {
                scan_bad_char(s.skip(1), (depth - 1) as nat)
            }
        } else {
            scan_bad_char(s.skip(1), depth)
        }
    }
}

/// Whatever tokens have been scanned so far, an unmatched close parenthesis
/// ends the scan with `MismatchedParens`.
proof fn lemma_scan_unmatched_close(s: Seq<char>, toks: Seq<Token>, depth: nat)
    requires
        scan_hits_unmatched_close(s, depth),
    ensures
        spec_parse_rec(s, toks, depth) == Err::<Seq<Token>, Error>(Error::MismatchedParens),
    decreases s.len(),
{
    let c = s[0];
    if c == '(' {
        lemma_scan_unmatched_close(s.skip(1), toks.push(Token::Bracket('(')), depth + 1);
    } else if c == ')' {
        if depth > 0 {
            lemma_scan_unmatched_close(
                s.skip(1),
                toks.push(Token::Bracket(')')),
                (depth - 1) as nat,
            );
        }
    } else if is_digit(c) {
        let toks2 = if toks.len() > 0 && (toks.last() matches Token::Number(_)) {
            let merged = match toks.last() {
                Token::Number(n) => ((n * 10 + digit_value(c)) % 0x1_0000_0000) as u32,
                _ => 0u32,
            };
            toks.drop_last().push(Token::Number(merged))
        } else {
            toks.push(Token::Number(digit_value(c) as u32))
        };
        lemma_scan_unmatched_close(s.skip(1), toks2, depth);
    } else {
        lemma_scan_unmatched_close(s.skip(1), toks, depth);
        lemma_scan_unmatched_close(s.skip(1), toks.push(s_op(c)), depth);
    }
}

/// The operator token a character stands for, shorthand for the proofs here.
spec fn s_op(c: char) -> Token {
    Token::Op(op_of_char(c))
}

/// A string whose scan meets an unmatched close parenthesis fails with
/// `MismatchedParens`.
pub proof fn lemma_unmatched_close_rejected(s: Seq<char>)
    requires
        scan_hits_unmatched_close(s, 0),
    ensures
        spec_parse(s) == Err::<Seq<Token>, Error>(Error::MismatchedParens),
{
    lemma_scan_unmatched_close(s, Seq::empty(), 0);
}

/// Whatever tokens have been scanned so far, a text of accepted characters
/// that leaves parentheses open ends the scan with `MismatchedParens`.
proof fn lemma_scan_unclosed_open(s: Seq<char>, toks: Seq<Token>, depth: nat)
    requires
        forall|i: int| 0 <= i < s.len() ==> is_valid_char(#[trigger] s[i]),
        !scan_hits_unmatched_close(s, depth),
        open_depth(s, depth) > 0,
    ensures
        spec_parse_rec(s, toks, depth) == Err::<Seq<Token>, Error>(Error::MismatchedParens),
    decreases s.len(),
{
    if s.len() > 0 {
        let c = s[0];
        if c == '(' {
            lemma_scan_unclosed_open(s.skip(1), toks.push(Token::Bracket('(')), depth + 1);
        } else if c == ')' {
            lemma_scan_unclosed_open(
                s.skip(1),
                toks.push(Token::Bracket(')')),
                (depth - 1) as nat,
            );
        } else if is_digit(c) {
            let toks2 = if toks.len() > 0 && (toks.last() matches Token::Number(_)) {
                let merged = match toks.last() {
                    Token::Number(n) => ((n * 10 + digit_value(c)) % 0x1_0000_0000) as u32,
                    _ => 0u32,
                };
                toks.drop_last().push(Token::Number(merged))
            } else {
                toks.push(Token::Number(digit_value(c) as u32))
            };
            lemma_scan_unclosed_open(s.skip(1), toks2, depth);
        } else {
            lemma_scan_unclosed_open(s.skip(1), toks, depth);
            lemma_scan_unclosed_open(s.skip(1), toks.push(s_op(c)), depth);
        }
    }
}

/// A string of accepted characters with no unmatched close parenthesis but
/// at least one parenthesis left open fails with `MismatchedParens`.
pub proof fn lemma_unclosed_open_rejected(s: Seq<char>)
    requires
        forall|i: int| 0 <= i < s.len() ==> is_valid_char(#[trigger] s[i]),
        !scan_hits_unmatched_close(s, 0),
        open_depth(s, 0) > 0,
    ensures
        spec_parse(s) == Err::<Seq<Token>, Error>(Error::MismatchedParens),
{
    lemma_scan_unclosed_open(s, Seq::empty(), 0);
}

/// Whatever tokens have been scanned so far, the first unrecognized
/// character ends the scan with `BadToken` carrying it.
proof fn lemma_scan_bad_char(s: Seq<char>, toks: Seq<Token>, depth: nat, c: char)
    requires
        scan_bad_char(s, depth) == Some(c),
    ensures
        spec_parse_rec(s, toks, depth) == Err::<Seq<Token>, Error>(Error::BadToken(c)),
    decreases s.len(),
{
    let c0 = s[0];
    if !is_valid_char(c0) {
    } else if c0 == '(' {
        lemma_scan_bad_char(s.skip(1), toks.push(Token::Bracket('(')), depth + 1, c);
    } else if c0 == ')' {
        lemma_scan_bad_char(s.skip(1), toks.push(Token::Bracket(')')), (depth - 1) as nat, c);
    } else if is_digit(c0) {
        let toks2 = if toks.len() > 0 && (toks.last() matches Token::Number(_)) {
            let merged = match toks.last() {
                Token::Number(n) => ((n * 10 + digit_value(c0)) % 0x1_0000_0000) as u32,
                _ => 0u32,
            };
            toks.drop_last().push(Token::Number(merged))
        } else {
            toks.push(Token::Number(digit_value(c0) as u32))
        };
        lemma_scan_bad_char(s.skip(1), toks2, depth, c);
    } else {
        lemma_scan_bad_char(s.skip(1), toks, depth, c);
        lemma_scan_bad_char(s.skip(1), toks.push(s_op(c0)), depth, c);
    }
}

/// A string whose scan meets an unrecognized character first fails with
/// `BadToken` carrying exactly that character.
pub proof fn lemma_bad_char_rejected(s: Seq<char>, c: char)
    requires
        scan_bad_char(s, 0) == Some(c),
    ensures
        spec_parse(s) == Err::<Seq<Token>, Error>(Error::BadToken(c)),
{
    lemma_scan_bad_char(s, Seq::empty(), 0, c);
}

/// No bracket token anywhere in the sequence.
pub open spec fn bracket_free(ts: Seq<Token>) -> bool {
    forall|j: int| 0 <= j < ts.len() ==> !((#[trigger] ts[j]) matches Token::Bracket(_))
}

/// The converter meets a close parenthesis with no open one pending; a
/// parenthesis character other than `'('` and `')'` counts for nothing, as
/// the converter skips it.
pub open spec fn token_unmatched_close(ts: Seq<Token>, depth: nat) -> bool
    decreases ts.len(),
{
    if ts.len() == 0 {
        false
    } else {
        let rest = ts.skip(1);
        if ts[0] == Token::Bracket('(') {
            token_unmatched_close(rest, depth + 1)
        } else if ts[0] == Token::Bracket(')') {
            if depth == 0 {
                true
            } else {
                token_unmatched_close(rest, (depth - 1) as nat)
            }
        } else {
            token_unmatched_close(rest, depth)
        }
    }
}

/// How many parentheses are still open after the whole token sequence,
/// unmatched closes ignored.
pub open spec fn token_open_depth(ts: Seq<Token>, depth: nat) -> nat
    decreases ts.len(),
{
    if ts.len() == 0 {
        depth
    } else {
        let rest = ts.skip(1);
        if ts[0] == Token::Bracket('(') {
            token_open_depth(rest, depth + 1)
        } else if ts[0] == Token::Bracket(')') {
            token_open_depth(rest, if depth == 0 {
                0
            } else {
                (depth - 1) as nat
            })
        } else {
            token_open_depth(rest, depth)
        }
    }
}

/// Every open parenthesis has its close and none closes too early.
pub open spec fn brackets_balanced(ts: Seq<Token>) -> bool {
    !token_unmatched_close(ts, 0) && token_open_depth(ts, 0) == 0
}

/// How many open parentheses the converter's stack holds.
spec fn open_count(st: Seq<Token>) -> nat
    decreases st.len(),
{
    if st.len() == 0 {
        0
    } else {
        open_count(st.drop_last()) + if st.last() == Token::Bracket('(') {
            1nat
        } else {
            0nat
        }
    }
}

/// The converter's stack only ever holds operators and open parentheses.
spec fn ops_and_opens(st: Seq<Token>) -> bool {
    forall|j: int| 0 <= j < st.len() ==> ((#[trigger] st[j]) matches Token::Op(_)) || st[j]
        == Token::Bracket('(')
}

/// A stack of operators and open parentheses with no open parenthesis left
/// holds no bracket at all.
proof fn lemma_open_count_zero(st: Seq<Token>)
    requires
        ops_and_opens(st),
        open_count(st) == 0,
    ensures
        bracket_free(st),
    decreases st.len(),
{
    if st.len() > 0 {
        assert(ops_and_opens(st.drop_last()));
        lemma_open_count_zero(st.drop_last());
        assert(forall|j: int| 0 <= j < st.len() - 1 ==> st[j] == st.drop_last()[j]);
    }
}

/// The operator rule's popping moves only operators to the queue and leaves
/// every open parenthesis on the stack.
proof fn lemma_pop_ge_shape(st: Seq<Token>, q: Seq<Token>, p: int)
    requires
        ops_and_opens(st),
        bracket_free(q),
    ensures
        ({
            let (st2, q2) = spec_pop_ge(st, q, p);
            ops_and_opens(st2) && bracket_free(q2) && open_count(st2) == open_count(st)
        }),
    decreases st.len(),
{
    if st.len() > 0 && (match st.last() {
        Token::Op(o) => spec_precedence(o) >= p,
        _ => false,
    }) {
        assert(ops_and_opens(st.drop_last()));
        assert(bracket_free(q.push(st.last())));
        lemma_pop_ge_shape(st.drop_last(), q.push(st.last()), p);
    }
}

/// Popping for a close parenthesis moves only operators to the queue and
/// consumes exactly one open parenthesis.
proof fn lemma_pop_until_open_shape(st: Seq<Token>, q: Seq<Token>)
    requires
        ops_and_opens(st),
        bracket_free(q),
        open_count(st) > 0,
    ensures
        ({
            let (st2, q2) = spec_pop_until_open(st, q);
            ops_and_opens(st2) && bracket_free(q2) && open_count(st2) == open_count(st) - 1
        }),
    decreases st.len(),
{
    if st.last() == Token::Bracket('(') {
        assert(ops_and_opens(st.drop_last()));
    } else {
        assert(ops_and_opens(st.drop_last()));
        assert(bracket_free(q.push(st.last())));
        lemma_pop_until_open_shape(st.drop_last(), q.push(st.last()));
    }
}

/// Through the whole conversion, the queue stays bracket-free as long as the
/// remaining input closes nothing that is not open and leaves nothing open.
proof fn lemma_postfix_rec_bracket_free(toks: Seq<Token>, st: Seq<Token>, q: Seq<Token>)
    requires
        ops_and_opens(st),
        bracket_free(q),
        !token_unmatched_close(toks, open_count(st)),
        token_open_depth(toks, open_count(st)) == 0,
    ensures
        bracket_free(spec_to_postfix_rec(toks, st, q)),
    decreases toks.len(),
{
    if toks.len() == 0 {
        lemma_open_count_zero(st);
        let out = q + st.reverse();
        assert forall|j: int| 0 <= j < out.len() implies !((#[trigger] out[j])
            matches Token::Bracket(_)) by {
            if j < q.len() {
                assert(out[j] == q[j]);
            } else {
                assert(out[j] == st.reverse()[j - q.len()]);
                assert(st.reverse()[j - q.len()] == st[st.len() - 1 - (j - q.len())]);
            }
        }
    } else {
        let t = toks[0];
        let rest = toks.skip(1);
        match t {
            Token::Number(_) => {
                assert(bracket_free(q.push(t)));
                lemma_postfix_rec_bracket_free(rest, st, q.push(t));
            },
            Token::Op(o) => {
                let p = spec_precedence(o);
                lemma_pop_ge_shape(st, q, p);
                let (st2, q2) = spec_pop_ge(st, q, p);
                assert(st2.push(t).drop_last() =~= st2);
                assert(ops_and_opens(st2.push(t)));
                lemma_postfix_rec_bracket_free(rest, st2.push(t), q2);
            },
            Token::Bracket(c) => {
                if c == '(' {
                    assert(st.push(t).drop_last() =~= st);
                    assert(ops_and_opens(st.push(t)));
                    assert(open_count(st.push(t)) == open_count(st) + 1);
                    lemma_postfix_rec_bracket_free(rest, st.push(t), q);
                } else if c == ')' {
                    lemma_pop_until_open_shape(st, q);
                    let (st2, q2) = spec_pop_until_open(st, q);
                    lemma_postfix_rec_bracket_free(rest, st2, q2);
                } else {
                    lemma_postfix_rec_bracket_free(rest, st, q);
                }
            },
        }
    }
}

/// On a token sequence whose parentheses match up — as every sequence the
/// tokenizer accepts does — the converter's output holds no bracket token.
pub proof fn lemma_postfix_has_no_brackets(toks: Seq<Token>)
    requires
        brackets_balanced(toks),
    ensures
        bracket_free(spec_to_postfix(toks)),
{
    lemma_postfix_rec_bracket_free(toks, Seq::empty(), Seq::empty());
}

/// What appending one token does to the bracket scan: numbers and operators
/// change nothing, an open parenthesis deepens the ending depth by one, and
/// a close parenthesis consumes one open level when one is pending.
proof fn lemma_scan_append(ts: Seq<Token>, t: Token, depth: nat)
    ensures
        !(t matches Token::Bracket(_)) ==> token_unmatched_close(ts.push(t), depth)
            == token_unmatched_close(ts, depth) && token_open_depth(ts.push(t), depth)
            == token_open_depth(ts, depth),
        t == Token::Bracket('(') ==> token_unmatched_close(ts.push(t), depth)
            == token_unmatched_close(ts, depth) && token_open_depth(ts.push(t), depth)
            == token_open_depth(ts, depth) + 1,
        t == Token::Bracket(')') && !token_unmatched_close(ts, depth) ==> (
        token_unmatched_close(ts.push(t), depth) == (token_open_depth(ts, depth) == 0)
            && (token_open_depth(ts, depth) > 0 ==> token_open_depth(ts.push(t), depth)
            == token_open_depth(ts, depth) - 1)),
    decreases ts.len(),
{
    reveal_with_fuel(token_unmatched_close, 3);
    reveal_with_fuel(token_open_depth, 3);
    if ts.len() == 0 {
        assert(ts.push(t).skip(1) =~= Seq::<Token>::empty());
        assert(ts.push(t)[0] == t);
    } else {
        assert(ts.push(t).skip(1) =~= ts.skip(1).push(t));
        assert(ts.push(t)[0] == ts[0]);
        if ts[0] == Token::Bracket('(') {
            lemma_scan_append(ts.skip(1), t, depth + 1);
        } else if ts[0] == Token::Bracket(')') {
            if depth == 0 {
                lemma_scan_append(ts.skip(1), t, 0);
            } else {
                lemma_scan_append(ts.skip(1), t, (depth - 1) as nat);
            }
        } else {
            lemma_scan_append(ts.skip(1), t, depth);
        }
    }
}

/// Through the tokenizer's whole scan, the tokens emitted so far close no
/// parenthesis that was not open and end exactly as deep as the tracker
/// says; so an accepted text's tokens are balanced.
proof fn lemma_parse_rec_balanced(s: Seq<char>, toks: Seq<Token>, depth: nat)
    requires
        !token_unmatched_close(toks, 0),
        token_open_depth(toks, 0) == depth,
        spec_parse_rec(s, toks, depth) is Ok,
    ensures
        spec_parse_rec(s, toks, depth) matches Ok(res) ==> brackets_balanced(res),
    decreases s.len(),
{
    if s.len() > 0 {
        let c = s[0];
        if is_digit(c) {
            if toks.len() > 0 && (toks.last() matches Token::Number(_)) {
                let merged = match toks.last() {
                    Token::Number(n) => ((n * 10 + digit_value(c)) % 0x1_0000_0000) as u32,
                    _ => 0u32,
                };
                assert(toks.drop_last().push(toks.last()) =~= toks);
                lemma_scan_append(toks.drop_last(), toks.last(), 0);
                lemma_scan_append(toks.drop_last(), Token::Number(merged), 0);
                lemma_parse_rec_balanced(
                    s.skip(1),
                    toks.drop_last().push(Token::Number(merged)),
                    depth,
                );
            } else {
                lemma_scan_append(toks, Token::Number(digit_value(c) as u32), 0);
                lemma_parse_rec_balanced(
                    s.skip(1),
                    toks.push(Token::Number(digit_value(c) as u32)),
                    depth,
                );
            }
        } else if c == '(' {
            lemma_scan_append(toks, Token::Bracket('('), 0);
            lemma_parse_rec_balanced(s.skip(1), toks.push(Token::Bracket('(')), depth + 1);
        } else if c == ')' {
            if depth > 0 {
                lemma_scan_append(toks, Token::Bracket(')'), 0);
                lemma_parse_rec_balanced(
                    s.skip(1),
                    toks.push(Token::Bracket(')')),
                    (depth - 1) as nat,
                );
            }
        } else if is_op_char(c) {
            lemma_scan_append(toks, s_op(c), 0);
            lemma_parse_rec_balanced(s.skip(1), toks.push(s_op(c)), depth);
        } else if is_space(c) {
            lemma_parse_rec_balanced(s.skip(1), toks, depth);
        }
    }
}

/// The token sequence of every text the tokenizer accepts has its
/// parentheses matched up.
pub proof fn lemma_parse_output_balanced(s: Seq<char>, toks: Seq<Token>)
    requires
        spec_parse(s) == Ok::<Seq<Token>, Error>(toks),
    ensures
        brackets_balanced(toks),
{
    lemma_parse_rec_balanced(s, Seq::empty(), 0);
}

/// On every text the tokenizer accepts, the converter's output holds no
/// bracket token.
pub proof fn lemma_pipeline_postfix_bracket_free(s: Seq<char>, toks: Seq<Token>)
    requires
        spec_parse(s) == Ok::<Seq<Token>, Error>(toks),
    ensures
        bracket_free(spec_to_postfix(toks)),
{
    lemma_parse_output_balanced(s, toks);
    lemma_postfix_has_no_brackets(toks);
}

/// The whole pipeline on a text: tokenize, convert to postfix, evaluate; a
/// tokenizer error yields no value.
pub open spec fn spec_pipeline(s: Seq<char>) -> Option<(int, int)> {
    match spec_parse(s) {
        Ok(toks) => spec_evaluate(spec_to_postfix(toks)),
        Err(_) => None,
    }
}

/// Each stage's result is a function of its input alone, so running the
/// pipeline any number of times on the same text gives the same outcome.
pub proof fn lemma_pipeline_deterministic(s1: Seq<char>, s2: Seq<char>)
    requires
        s1 == s2,
    ensures
        spec_pipeline(s1) == spec_pipeline(s2),
{
}

} // verus!
