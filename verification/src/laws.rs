//! The arithmetic laws of the evaluator. The text `a <op> b`, written
//! with the decimal digits of the two numbers, evaluates to exactly the
//! arithmetic result, for each of the four operators, for every pair of
//! operands; padding such a text with whitespace never changes its
//! outcome; a zero divisor is always reported as a division by zero; and
//! the outcome of an evaluation is a function of the text alone.

use crate::interpreter::{evaluation_matches, in_i64, is_space_char, lemma_next_token_bounds,
    spec_digit_run_end, spec_evaluate, spec_expr, spec_expr_rest, spec_factor, spec_next_token,
    spec_skip_ws, spec_term, spec_term_rest, EvalError};
use crate::numeral::{is_digit_char, lemma_digits_of_all_digits, lemma_num_val_digits_of,
    spec_digits_of};
use crate::token::{Token, TokenOpValue, TokenType, TokenValue};
use vstd::prelude::*;

verus! {

/// The characters that spell the four binary operators.
pub open spec fn is_op_char(op: char) -> bool {
    op == '+' || op == '-' || op == '*' || op == '/'
}

/// The text `a <op> b`: the decimal digits of `a`, the operator
/// character, and the decimal digits of `b`, with no whitespace.
pub open spec fn binop_text(a: nat, op: char, b: nat) -> Seq<char> {
    spec_digits_of(a) + seq![op] + spec_digits_of(b)
}

/// The text `a <op> b` with arbitrary whitespace around the three tokens.
pub open spec fn padded_binop_text(
    ws1: Seq<char>,
    a: nat,
    ws2: Seq<char>,
    op: char,
    ws3: Seq<char>,
    b: nat,
    ws4: Seq<char>,
) -> Seq<char> {
    ws1 + spec_digits_of(a) + ws2 + seq![op] + ws3 + spec_digits_of(b) + ws4
}

/// Whether every character of `ws` is whitespace.
pub open spec fn all_spaces(ws: Seq<char>) -> bool {
    forall|i: int| 0 <= i < ws.len() ==> is_space_char(#[trigger] ws[i])
}

/// What applying `op` to the operands `a` and `b` is owed to yield, for
/// operands within the `i64` domain: the arithmetic result when it fits,
/// an overflow error when it does not, and a division-by-zero error for
/// a zero divisor.
pub open spec fn spec_binop_result(a: nat, op: char, b: nat) -> Result<int, EvalError> {
    if op == '+' {
        if a + b <= i64::MAX {
            Ok((a + b) as int)
        } else {
            Err(EvalError::IntegerOverflow)
        }
    } else if op == '-' {
        Ok(a - b)
    } else if op == '*' {
        if a * b <= i64::MAX {
            Ok((a * b) as int)
        } else {
            Err(EvalError::IntegerOverflow)
        }
    } else {
        if b == 0 {
            Err(EvalError::DivisionByZero)
        } else {
            Ok(a as int / b as int)
        }
    }
}

/// The integer-literal token holding `n`.
pub open spec fn num_token(n: int) -> Token {
    Token { typ: TokenType::Integer, val: TokenValue::TokenNumValue(n as i64) }
}

/// The end-of-input token.
pub open spec fn eof_token() -> Token {
    Token { typ: TokenType::Eof, val: TokenValue::TokenOpValue(TokenOpValue::NoOp) }
}

/// The operator token scanned from the character `op`.
pub open spec fn op_token(op: char) -> Token {
    if op == '+' {
        Token { typ: TokenType::Add, val: TokenValue::TokenOpValue(TokenOpValue::Plus) }
    } else if op == '-' {
        Token { typ: TokenType::Subtract, val: TokenValue::TokenOpValue(TokenOpValue::Minus) }
    } else if op == '*' {
        Token { typ: TokenType::Multiply, val: TokenValue::TokenOpValue(TokenOpValue::Asterisk) }
    } else {
        Token { typ: TokenType::Divide, val: TokenValue::TokenOpValue(TokenOpValue::Slash) }
    }
}

/// A block of whitespace bounded by a non-space or the end of the text
/// is exactly what the scanner skips.
proof fn lemma_skip_ws_block(s: Seq<char>, p: int, q: int)
    requires
        0 <= p <= q <= s.len(),
        forall|i: int| p <= i < q ==> is_space_char(#[trigger] s[i]),
        q == s.len() || !is_space_char(s[q]),
    ensures
        spec_skip_ws(s, p) == q,
    decreases q - p,
{
    if p < q {
        lemma_skip_ws_block(s, p + 1, q);
    }
}

/// A maximal block of digits bounded by a non-digit or the end of the
/// text is exactly what the scanner's digit run covers.
proof fn lemma_run_end_of_digit_block(s: Seq<char>, p: int, e: int)
    requires
        0 <= p <= e <= s.len(),
        forall|i: int| p <= i < e ==> is_digit_char(#[trigger] s[i]),
        e == s.len() || !is_digit_char(s[e]),
    ensures
        spec_digit_run_end(s, p) == e,
    decreases e - p,
{
    if p < e {
        lemma_run_end_of_digit_block(s, p + 1, e);
    }
}

/// How the scanner cuts a padded `a <op> b` text into tokens: the
/// literal of `a`, the operator, the literal of `b`, and the end of
/// input, each preceded by its stretch of whitespace.
proof fn lemma_padded_tokens(
    ws1: Seq<char>,
    a: nat,
    ws2: Seq<char>,
    op: char,
    ws3: Seq<char>,
    b: nat,
    ws4: Seq<char>,
)
    requires
        is_op_char(op),
        a <= i64::MAX,
        b <= i64::MAX,
        all_spaces(ws1),
        all_spaces(ws2),
        all_spaces(ws3),
        all_spaces(ws4),
    ensures
        ({
            let s = padded_binop_text(ws1, a, ws2, op, ws3, b, ws4);
            let p1 = ws1.len() + spec_digits_of(a).len();
            let p2 = p1 + ws2.len() + 1;
            let p3 = p2 + ws3.len() + spec_digits_of(b).len();
            &&& p3 + ws4.len() == s.len()
            &&& spec_next_token(s, 0) == Ok::<(Token, int), EvalError>(
                (num_token(a as int), p1 as int),
            )
            &&& spec_next_token(s, p1 as int) == Ok::<(Token, int), EvalError>(
                (op_token(op), p2 as int),
            )
            &&& spec_next_token(s, p2 as int) == Ok::<(Token, int), EvalError>(
                (num_token(b as int), p3 as int),
            )
            &&& spec_next_token(s, p3 as int) == Ok::<(Token, int), EvalError>(
                (eof_token(), s.len() as int),
            )
        }),
{
    let s = padded_binop_text(ws1, a, ws2, op, ws3, b, ws4);
    let da = spec_digits_of(a);
    let db = spec_digits_of(b);
    let w1 = ws1.len() as int;
    let p1 = w1 + da.len() as int;
    let opos = p1 + ws2.len() as int;
    let p2 = opos + 1;
    let bstart = p2 + ws3.len() as int;
    let p3 = bstart + db.len() as int;
    let len = s.len() as int;
    lemma_digits_of_all_digits(a);
    lemma_digits_of_all_digits(b);
    lemma_num_val_digits_of(a);
    lemma_num_val_digits_of(b);
    assert(len == p3 + ws4.len());

    // which character stands where
    assert(forall|i: int| 0 <= i < w1 ==> #[trigger] s[i] == ws1[i]);
    assert(forall|i: int| w1 <= i < p1 ==> #[trigger] s[i] == da[i - w1]);
    assert(forall|i: int| p1 <= i < opos ==> #[trigger] s[i] == ws2[i - p1]);
    assert(s[opos] == op);
    assert(forall|i: int| p2 <= i < bstart ==> #[trigger] s[i] == ws3[i - p2]);
    assert(forall|i: int| bstart <= i < p3 ==> #[trigger] s[i] == db[i - bstart]);
    assert(forall|i: int| p3 <= i < len ==> #[trigger] s[i] == ws4[i - p3]);

    // the literal of `a`
    assert(is_digit_char(s[w1]));
    lemma_skip_ws_block(s, 0, w1);
    lemma_run_end_of_digit_block(s, w1, p1);
    assert(s.subrange(w1, p1) =~= da);

    // the operator
    assert(!is_space_char(op) && !is_digit_char(op));
    lemma_skip_ws_block(s, p1, opos);

    // the literal of `b`
    assert(is_digit_char(s[bstart]));
    lemma_skip_ws_block(s, p2, bstart);
    lemma_run_end_of_digit_block(s, bstart, p3);
    assert(s.subrange(bstart, p3) =~= db);

    // the end of input
    lemma_skip_ws_block(s, p3, len);
}

/// The positions of a token cut stand in order within the text.
proof fn lemma_next_token_positions(s: Seq<char>, p1: int, p2: int, p3: int)
    requires
        spec_next_token(s, 0) matches Ok(pr) && pr.0.typ != TokenType::Eof && pr.1 == p1,
        spec_next_token(s, p1) matches Ok(pr) && pr.0.typ != TokenType::Eof && pr.1 == p2,
        spec_next_token(s, p2) matches Ok(pr) && pr.0.typ != TokenType::Eof && pr.1 == p3,
    ensures
        0 < p1 < p2 < p3 <= s.len(),
{
    lemma_next_token_bounds(s, 0);
    lemma_next_token_bounds(s, p1);
    lemma_next_token_bounds(s, p2);
}

/// Walks the parse once the scanner is known to cut the text into the
/// literal of `a`, the operator, the literal of `b` and the end of
/// input: the whole text then evaluates to applying `op` to `a` and `b`.
proof fn lemma_eval_from_token_cut(
    s: Seq<char>,
    a: nat,
    op: char,
    b: nat,
    p1: int,
    p2: int,
    p3: int,
    p4: int,
)
    requires
        is_op_char(op),
        a <= i64::MAX,
        b <= i64::MAX,
        spec_next_token(s, 0) == Ok::<(Token, int), EvalError>((num_token(a as int), p1)),
        spec_next_token(s, p1) == Ok::<(Token, int), EvalError>((op_token(op), p2)),
        spec_next_token(s, p2) == Ok::<(Token, int), EvalError>((num_token(b as int), p3)),
        spec_next_token(s, p3) == Ok::<(Token, int), EvalError>((eof_token(), p4)),
    ensures
        spec_evaluate(s) == spec_binop_result(a, op, b),
{
    lemma_next_token_positions(s, p1, p2, p3);
    assert(spec_factor(s, 0) == Ok::<(int, int), EvalError>((a as int, p1)));
    assert(spec_factor(s, p2) == Ok::<(int, int), EvalError>((b as int, p3)));
    if op == '+' || op == '-' {
        assert(spec_term_rest(s, p1, a as int) == Ok::<(int, int), EvalError>((a as int, p1)));
        assert(spec_term(s, 0) == Ok::<(int, int), EvalError>((a as int, p1)));
        assert(spec_term_rest(s, p3, b as int) == Ok::<(int, int), EvalError>((b as int, p3)));
        assert(spec_term(s, p2) == Ok::<(int, int), EvalError>((b as int, p3)));
        let v = if op == '+' {
            (a + b) as int
        } else {
            a - b
        };
        if op == '+' && a + b > i64::MAX {
            assert(spec_expr_rest(s, p1, a as int) == Err::<(int, int), EvalError>(
                EvalError::IntegerOverflow,
            ));
            assert(spec_expr(s, 0) == Err::<(int, int), EvalError>(EvalError::IntegerOverflow));
        } else {
            assert(in_i64(v));
            assert(spec_expr_rest(s, p3, v) == Ok::<(int, int), EvalError>((v, p3)));
            assert(spec_expr_rest(s, p1, a as int) == Ok::<(int, int), EvalError>((v, p3)));
            assert(spec_expr(s, 0) == Ok::<(int, int), EvalError>((v, p3)));
        }
    } else if op == '*' {
        vstd::arithmetic::mul::lemma_mul_nonnegative(a as int, b as int);
        if a * b <= i64::MAX {
            let v = (a * b) as int;
            assert(in_i64(v));
            assert(spec_term_rest(s, p3, v) == Ok::<(int, int), EvalError>((v, p3)));
            assert(spec_term_rest(s, p1, a as int) == Ok::<(int, int), EvalError>((v, p3)));
            assert(spec_term(s, 0) == Ok::<(int, int), EvalError>((v, p3)));
            assert(spec_expr_rest(s, p3, v) == Ok::<(int, int), EvalError>((v, p3)));
            assert(spec_expr(s, 0) == Ok::<(int, int), EvalError>((v, p3)));
        } else {
            assert(spec_term_rest(s, p1, a as int) == Err::<(int, int), EvalError>(
                EvalError::IntegerOverflow,
            ));
            assert(spec_expr(s, 0) == Err::<(int, int), EvalError>(EvalError::IntegerOverflow));
        }
    } else {
        if b == 0 {
            assert(spec_term_rest(s, p1, a as int) == Err::<(int, int), EvalError>(
                EvalError::DivisionByZero,
            ));
            assert(spec_expr(s, 0) == Err::<(int, int), EvalError>(EvalError::DivisionByZero));
        } else {
            let q = a as int / b as int;
            vstd::arithmetic::div_mod::lemma_div_pos_is_pos(a as int, b as int);
            vstd::arithmetic::div_mod::lemma_div_nonincreasing(a as int, b as int);
            assert(spec_term_rest(s, p3, q) == Ok::<(int, int), EvalError>((q, p3)));
            assert(spec_term_rest(s, p1, a as int) == Ok::<(int, int), EvalError>((q, p3)));
            assert(spec_term(s, 0) == Ok::<(int, int), EvalError>((q, p3)));
            assert(spec_expr_rest(s, p3, q) == Ok::<(int, int), EvalError>((q, p3)));
            assert(spec_expr(s, 0) == Ok::<(int, int), EvalError>((q, p3)));
        }
    }
}

/// For all operands within the numeric domain and any of the four
/// operators, the text `a <op> b` evaluates to applying the operator:
/// the arithmetic result when it fits the domain, the overflow error
/// when it does not, and the division-by-zero error for a zero divisor.
pub proof fn lemma_evaluate_binop(a: nat, op: char, b: nat)
    requires
        is_op_char(op),
        a <= i64::MAX,
        b <= i64::MAX,
    ensures
        spec_evaluate(binop_text(a, op, b)) == spec_binop_result(a, op, b),
{
    let none: Seq<char> = Seq::empty();
    assert(all_spaces(none));
    lemma_padded_tokens(none, a, none, op, none, b, none);
    let s = padded_binop_text(none, a, none, op, none, b, none);
    assert(s =~= binop_text(a, op, b));
    let alen = spec_digits_of(a).len() as int;
    let len = s.len() as int;
    lemma_eval_from_token_cut(binop_text(a, op, b), a, op, b, alen, alen + 1, len, len);
}

/// For all non-negative integers `a` and `b` whose sum stays in the
/// numeric domain, the text `a+b` evaluates to `a + b`.
pub proof fn lemma_evaluate_add(a: nat, b: nat)
    requires
        a <= i64::MAX,
        b <= i64::MAX,
        a + b <= i64::MAX,
    ensures
        spec_evaluate(binop_text(a, '+', b)) == Ok::<int, EvalError>((a + b) as int),
{
    lemma_evaluate_binop(a, '+', b);
}

/// For all non-negative integers `a` and `b`, the text `a-b` evaluates
/// to `a - b`.
pub proof fn lemma_evaluate_sub(a: nat, b: nat)
    requires
        a <= i64::MAX,
        b <= i64::MAX,
    ensures
        spec_evaluate(binop_text(a, '-', b)) == Ok::<int, EvalError>(a - b),
{
    lemma_evaluate_binop(a, '-', b);
}

/// For all non-negative integers `a` and `b` whose product stays in the
/// numeric domain, the text `a*b` evaluates to `a * b`.
pub proof fn lemma_evaluate_mul(a: nat, b: nat)
    requires
        a <= i64::MAX,
        b <= i64::MAX,
        a * b <= i64::MAX,
    ensures
        spec_evaluate(binop_text(a, '*', b)) == Ok::<int, EvalError>((a * b) as int),
{
    lemma_evaluate_binop(a, '*', b);
}

/// For all non-negative integers `a` and `b` with `b` non-zero, the text
/// `a/b` evaluates to the integer quotient `a / b`.
pub proof fn lemma_evaluate_div(a: nat, b: nat)
    requires
        a <= i64::MAX,
        b <= i64::MAX,
        b != 0,
    ensures
        spec_evaluate(binop_text(a, '/', b)) == Ok::<int, EvalError>(a as int / b as int),
{
    lemma_evaluate_binop(a, '/', b);
}

/// Dividing any number by zero is reported as a division by zero.
pub proof fn lemma_evaluate_div_by_zero(a: nat)
    requires
        a <= i64::MAX,
    ensures
        spec_evaluate(binop_text(a, '/', 0)) == Err::<int, EvalError>(EvalError::DivisionByZero),
{
    lemma_evaluate_binop(a, '/', 0);
}

/// Whitespace is insignificant: padding the text `a <op> b` with any
/// whitespace around its three tokens never changes what it evaluates
/// to.
pub proof fn lemma_evaluate_whitespace_insensitive(
    ws1: Seq<char>,
    a: nat,
    ws2: Seq<char>,
    op: char,
    ws3: Seq<char>,
    b: nat,
    ws4: Seq<char>,
)
    requires
        is_op_char(op),
        a <= i64::MAX,
        b <= i64::MAX,
        all_spaces(ws1),
        all_spaces(ws2),
        all_spaces(ws3),
        all_spaces(ws4),
    ensures
        spec_evaluate(padded_binop_text(ws1, a, ws2, op, ws3, b, ws4)) == spec_evaluate(
            binop_text(a, op, b),
        ),
{
    let s = padded_binop_text(ws1, a, ws2, op, ws3, b, ws4);
    lemma_padded_tokens(ws1, a, ws2, op, ws3, b, ws4);
    let p1 = (ws1.len() + spec_digits_of(a).len()) as int;
    let p2 = p1 + ws2.len() + 1;
    let p3 = p2 + ws3.len() + spec_digits_of(b).len();
    lemma_eval_from_token_cut(s, a, op, b, p1, p2, p3, s.len() as int);
    lemma_evaluate_binop(a, op, b);
}

/// Evaluation has no hidden state: any two outcomes that agree with the
/// meaning of the same text are the same outcome, so repeated
/// evaluations of one text always produce one result.
pub proof fn lemma_evaluate_deterministic(
    r1: Result<i64, EvalError>,
    r2: Result<i64, EvalError>,
    s: Seq<char>,
)
    requires
        evaluation_matches(r1, s),
        evaluation_matches(r2, s),
    ensures
        r1 == r2,
{
}

} // verus!
