//! The expression pipeline: a scanner that produces tokens on demand from a
//! character cursor, and a recursive-descent parser that evaluates while it
//! parses, folding each chain of operators left to right.
//!
//! The grammar is
//! ```text
//! expression := term (("+" | "-") term)*
//! term       := factor (("*" | "/") factor)*
//! factor     := Number
//! ```
//! so `*` and `/` bind tighter than `+` and `-`, and every chain of equal
//! precedence groups from the left.
//!
//! The meaning of an input is pinned down by the spec functions below
//! (`spec_next_token`, `spec_factor`, `spec_term`, `spec_expr`,
//! `spec_evaluate`): a mathematical rendering of the same pull-based
//! pipeline over the character sequence, against which the executable
//! scanner and parser are verified.

use crate::numeral::{all_digits, digit_val, is_digit_char, lemma_num_val_nonneg,
    lemma_num_val_prefix_le, num_val};
use crate::token::{Token, TokenNumValue, TokenOpValue, TokenType, TokenValue};
use vstd::prelude::*;

verus! {

/// The numeric domain an evaluation works in.
pub type ExprResult = i64;

/// Everything that can go wrong while evaluating one expression. All errors
/// end the evaluation; no partial result survives them.
#[derive(Clone, Copy, Debug, PartialEq, Eq, Structural)]
pub enum EvalError {
    /// The input held no token at all: it was empty or all whitespace.
    EmptyInput,
    /// A character that starts no token, with its character position.
    UnexpectedCharacter(char, usize),
    /// The parser needed a token of one kind and found another.
    UnexpectedToken { expected: TokenType, found: TokenType },
    /// A division whose right-hand operand was zero.
    DivisionByZero,
    /// A literal or an intermediate result outside the `i64` domain.
    IntegerOverflow,
}

/// The whitespace characters the scanner skips over.
pub open spec fn is_space_char(c: char) -> bool {
    c == ' ' || c == '\t' || c == '\n' || c == '\r'
}

/// The first position at or after `p` holding a non-whitespace character,
/// or the end of the text.
pub open spec fn spec_skip_ws(s: Seq<char>, p: int) -> int
    decreases s.len() - p,
{
    if 0 <= p < s.len() && is_space_char(s[p]) {
        spec_skip_ws(s, p + 1)
    } else {
        p
    }
}

/// The end of the maximal run of digit characters starting at `p`.
pub open spec fn spec_digit_run_end(s: Seq<char>, p: int) -> int
    decreases s.len() - p,
{
    if 0 <= p < s.len() && is_digit_char(s[p]) {
        spec_digit_run_end(s, p + 1)
    } else {
        p
    }
}

/// The token the scanner yields at position `p`, with the position just
/// past it: whitespace is skipped, a digit starts a maximal literal, one
/// of `+ - * /` is an operator, the end of the text is `Eof`, and any
/// other character is an error. A literal beyond `i64::MAX` is an
/// overflow error rather than a wrapped value.
pub open spec fn spec_next_token(s: Seq<char>, p: int) -> Result<(Token, int), EvalError> {
    let q = spec_skip_ws(s, p);
    if q >= s.len() {
        Ok((Token { typ: TokenType::Eof, val: TokenValue::TokenOpValue(TokenOpValue::NoOp) }, q))
    } else if is_digit_char(s[q]) {
        let e = spec_digit_run_end(s, q);
        let v = num_val(s.subrange(q, e));
        if v > i64::MAX as int {
            Err(EvalError::IntegerOverflow)
        } else {
            Ok((Token { typ: TokenType::Integer, val: TokenValue::TokenNumValue(v as i64) }, e))
        }
    } else if s[q] == '+' {
        Ok((Token { typ: TokenType::Add, val: TokenValue::TokenOpValue(TokenOpValue::Plus) }, q + 1))
    } else if s[q] == '-' {
        Ok((Token { typ: TokenType::Subtract, val: TokenValue::TokenOpValue(TokenOpValue::Minus) }, q + 1))
    } else if s[q] == '*' {
        Ok((Token { typ: TokenType::Multiply, val: TokenValue::TokenOpValue(TokenOpValue::Asterisk) }, q + 1))
    } else if s[q] == '/' {
        Ok((Token { typ: TokenType::Divide, val: TokenValue::TokenOpValue(TokenOpValue::Slash) }, q + 1))
    } else {
        Err(EvalError::UnexpectedCharacter(s[q], q as usize))
    }
}

/// The numeric payload of a token, zero for operator tokens.
pub open spec fn tok_num(t: Token) -> int {
    match t.val {
        TokenValue::TokenNumValue(n) => n as int,
        TokenValue::TokenOpValue(_) => 0,
    }
}

/// Whether `v` fits the `i64` numeric domain.
pub open spec fn in_i64(v: int) -> bool {
    i64::MIN <= v <= i64::MAX
}

/// What `factor := Number` yields at position `p`: the literal's value and
/// the position just past it, or `UnexpectedToken` when the next token is
/// not an integer literal.
pub open spec fn spec_factor(s: Seq<char>, p: int) -> Result<(int, int), EvalError> {
    match spec_next_token(s, p) {
        Err(e) => Err(e),
        Ok((t, p2)) => {
            if t.typ == TokenType::Integer {
                Ok((tok_num(t), p2))
            } else {
                Err(EvalError::UnexpectedToken { expected: TokenType::Integer, found: t.typ })
            }
        },
    }
}

/// Folds `(("*" | "/") factor)*` left to right onto the running value
/// `acc`. A token of any other kind is left unconsumed: the returned
/// position still points at it. The token after each factor is scanned
/// before the factor is folded in, as the buffered parser does, so a
/// malformed character there is reported ahead of any arithmetic error.
/// A product outside the `i64` domain is an overflow error; a zero
/// divisor is a division-by-zero error.
pub open spec fn spec_term_rest(s: Seq<char>, p: int, acc: int) -> Result<(int, int), EvalError>
    decreases s.len() - p,
        when 0 <= p <= s.len()
{
    match spec_next_token(s, p) {
        Err(e) => Err(e),
        Ok((t, p1)) => {
            if t.typ == TokenType::Multiply {
                match spec_factor(s, p1) {
                    Err(e) => Err(e),
                    Ok((v, p2)) => match spec_next_token(s, p2) {
                        Err(e) => Err(e),
                        Ok(_) => {
                            if !in_i64(acc * v) {
                                Err(EvalError::IntegerOverflow)
                            } else {
                                proof {
                                    lemma_next_token_bounds(s, p);
                                    lemma_factor_bounds(s, p1);
                                }
                                spec_term_rest(s, p2, acc * v)
                            }
                        },
                    },
                }
            } else if t.typ == TokenType::Divide {
                match spec_factor(s, p1) {
                    Err(e) => Err(e),
                    Ok((v, p2)) => match spec_next_token(s, p2) {
                        Err(e) => Err(e),
                        Ok(_) => {
                            if v == 0 {
                                Err(EvalError::DivisionByZero)
                            } else {
                                proof {
                                    lemma_next_token_bounds(s, p);
                                    lemma_factor_bounds(s, p1);
                                }
                                spec_term_rest(s, p2, acc / v)
                            }
                        },
                    },
                }
            } else {
                Ok((acc, p))
            }
        },
    }
}

/// What `term := factor (("*" | "/") factor)*` yields at position `p`.
pub open spec fn spec_term(s: Seq<char>, p: int) -> Result<(int, int), EvalError> {
    match spec_factor(s, p) {
        Err(e) => Err(e),
        Ok((v, p1)) => spec_term_rest(s, p1, v),
    }
}

/// Folds `(("+" | "-") term)*` left to right onto the running value
/// `acc`, leaving any other token unconsumed. As in `spec_term_rest`,
/// the token after each term is scanned before the term is folded in. A
/// sum or difference outside the `i64` domain is an overflow error.
pub open spec fn spec_expr_rest(s: Seq<char>, p: int, acc: int) -> Result<(int, int), EvalError>
    decreases s.len() - p,
        when 0 <= p <= s.len()
{
    match spec_next_token(s, p) {
        Err(e) => Err(e),
        Ok((t, p1)) => {
            if t.typ == TokenType::Add {
                match spec_term(s, p1) {
                    Err(e) => Err(e),
                    Ok((v, p2)) => {
                        if !in_i64(acc + v) {
                            Err(EvalError::IntegerOverflow)
                        } else {
                            proof {
                                lemma_next_token_bounds(s, p);
                                lemma_term_bounds(s, p1);
                            }
                            spec_expr_rest(s, p2, acc + v)
                        }
                    },
                }
            } else if t.typ == TokenType::Subtract {
                match spec_term(s, p1) {
                    Err(e) => Err(e),
                    Ok((v, p2)) => {
                        if !in_i64(acc - v) {
                            Err(EvalError::IntegerOverflow)
                        } else {
                            proof {
                                lemma_next_token_bounds(s, p);
                                lemma_term_bounds(s, p1);
                            }
                            spec_expr_rest(s, p2, acc - v)
                        }
                    },
                }
            } else {
                Ok((acc, p))
            }
        },
    }
}

/// What `expression := term (("+" | "-") term)*` yields at position `p`.
pub open spec fn spec_expr(s: Seq<char>, p: int) -> Result<(int, int), EvalError> {
    match spec_term(s, p) {
        Err(e) => Err(e),
        Ok((v, p1)) => spec_expr_rest(s, p1, v),
    }
}

/// The meaning of a whole input: the first token of an empty or
/// whitespace-only text is `Eof` and the input is rejected as empty;
/// otherwise the text must be one complete expression followed by the end
/// of input, and anything trailing it is an unexpected token.
pub open spec fn spec_evaluate(s: Seq<char>) -> Result<int, EvalError> {
    match spec_next_token(s, 0) {
        Err(e) => Err(e),
        Ok((first, _)) => {
            if first.typ == TokenType::Eof {
                Err(EvalError::EmptyInput)
            } else {
                match spec_expr(s, 0) {
                    Err(e) => Err(e),
                    Ok((v, p)) => match spec_next_token(s, p) {
                        Err(e) => Err(e),
                        Ok((t, _)) => {
                            if t.typ == TokenType::Eof {
                                Ok(v)
                            } else {
                                Err(
                                    EvalError::UnexpectedToken {
                                        expected: TokenType::Eof,
                                        found: t.typ,
                                    },
                                )
                            }
                        },
                    },
                }
            }
        },
    }
}

/// Whether an executable outcome `r` agrees with the specified meaning of
/// the text `s`: the same value on success, the same error on failure.
pub open spec fn evaluation_matches(r: Result<i64, EvalError>, s: Seq<char>) -> bool {
    match (r, spec_evaluate(s)) {
        (Ok(a), Ok(b)) => a as int == b,
        (Err(a), Err(b)) => a == b,
        _ => false,
    }
}

pub proof fn lemma_skip_ws_bounds(s: Seq<char>, p: int)
    requires
        0 <= p <= s.len(),
    ensures
        p <= spec_skip_ws(s, p) <= s.len(),
        spec_skip_ws(s, p) < s.len() ==> !is_space_char(s[spec_skip_ws(s, p)]),
        forall|i: int| p <= i < spec_skip_ws(s, p) ==> is_space_char(#[trigger] s[i]),
    decreases s.len() - p,
{
    if p < s.len() && is_space_char(s[p]) {
        lemma_skip_ws_bounds(s, p + 1);
    }
}

pub proof fn lemma_digit_run_bounds(s: Seq<char>, p: int)
    requires
        0 <= p <= s.len(),
    ensures
        p <= spec_digit_run_end(s, p) <= s.len(),
        forall|i: int| p <= i < spec_digit_run_end(s, p) ==> is_digit_char(#[trigger] s[i]),
        spec_digit_run_end(s, p) < s.len() ==> !is_digit_char(s[spec_digit_run_end(s, p)]),
        p < s.len() && is_digit_char(s[p]) ==> p + 1 <= spec_digit_run_end(s, p),
    decreases s.len() - p,
{
    if p < s.len() && is_digit_char(s[p]) {
        lemma_digit_run_bounds(s, p + 1);
    }
}

pub proof fn lemma_next_token_bounds(s: Seq<char>, p: int)
    requires
        0 <= p <= s.len(),
    ensures
        match spec_next_token(s, p) {
            Ok((t, p2)) => {
                &&& p <= p2 <= s.len()
                &&& t.typ != TokenType::Eof ==> p < p2
                &&& t.typ == TokenType::Integer ==> (t.val matches TokenValue::TokenNumValue(n)
                    && n >= 0)
            },
            Err(_) => true,
        },
{
    lemma_skip_ws_bounds(s, p);
    let q = spec_skip_ws(s, p);
    if q < s.len() && is_digit_char(s[q]) {
        lemma_digit_run_bounds(s, q);
        let e = spec_digit_run_end(s, q);
        assert(all_digits(s.subrange(q, e)));
        lemma_num_val_nonneg(s.subrange(q, e));
    }
}

pub proof fn lemma_factor_bounds(s: Seq<char>, p: int)
    requires
        0 <= p <= s.len(),
    ensures
        match spec_factor(s, p) {
            Ok((v, p2)) => p < p2 <= s.len() && 0 <= v <= i64::MAX,
            Err(_) => true,
        },
{
    lemma_next_token_bounds(s, p);
}

pub proof fn lemma_term_rest_bounds(s: Seq<char>, p: int, acc: int)
    requires
        0 <= p <= s.len(),
    ensures
        match spec_term_rest(s, p, acc) {
            Ok((v, p2)) => p <= p2 <= s.len(),
            Err(_) => true,
        },
    decreases s.len() - p,
{
    lemma_next_token_bounds(s, p);
    match spec_next_token(s, p) {
        Err(_) => {},
        Ok((t, p1)) => {
            if t.typ == TokenType::Multiply || t.typ == TokenType::Divide {
                lemma_factor_bounds(s, p1);
                match spec_factor(s, p1) {
                    Err(_) => {},
                    Ok((v, p2)) => {
                        if t.typ == TokenType::Multiply {
                            if in_i64(acc * v) {
                                lemma_term_rest_bounds(s, p2, acc * v);
                            }
                        } else {
                            if v != 0 {
                                lemma_term_rest_bounds(s, p2, acc / v);
                            }
                        }
                    },
                }
            }
        },
    }
}

pub proof fn lemma_term_bounds(s: Seq<char>, p: int)
    requires
        0 <= p <= s.len(),
    ensures
        match spec_term(s, p) {
            Ok((v, p2)) => p < p2 <= s.len(),
            Err(_) => true,
        },
{
    lemma_factor_bounds(s, p);
    match spec_factor(s, p) {
        Err(_) => {},
        Ok((v, p1)) => {
            lemma_term_rest_bounds(s, p1, v);
        },
    }
}

fn is_space(c: char) -> (r: bool)
    ensures
        r == is_space_char(c),
{
    c == ' ' || c == '\t' || c == '\n' || c == '\r'
}

fn is_digit(c: char) -> (r: bool)
    ensures
        r == is_digit_char(c),
{
    let u = c as u32;
    '0' as u32 <= u && u <= '9' as u32
}

fn digit_value(c: char) -> (d: TokenNumValue)
    requires
        is_digit_char(c),
    ensures
        d == digit_val(c),
        0 <= d <= 9,
{
    (c as u32 - '0' as u32) as i64
}

/// One evaluation in flight: the source text, a forward-only character
/// cursor with one character of lookahead, and the single buffered token
/// the parser works on. A fresh instance serves exactly one evaluation.
#[derive(Clone)]
pub struct Interpreter<'a> {
    text: &'a str,
    pos: usize,
    current_token: Option<Token>,
    current_char: Option<char>,
    tok_start: Ghost<int>,
}

impl<'a> Interpreter<'a> {
    /// The view of the source text this evaluation reads.
    pub closed spec fn src(self) -> Seq<char> {
        self.text@
    }

    /// Whether this instance is newly built: the cursor at the start of
    /// the text and no token buffered yet.
    pub closed spec fn fresh(self) -> bool {
        self.pos == 0 && self.current_token is None
    }

    /// The cursor invariant: the position never passes the end of the
    /// text, and the lookahead holds exactly the character under the
    /// cursor, `None` at the end.
    pub closed spec fn wf(self) -> bool {
        &&& self.pos <= self.src().len()
        &&& self.current_char == (if self.pos < self.src().len() {
            Some(self.src()[self.pos as int])
        } else {
            None::<char>
        })
    }

    /// The token-buffer invariant: a buffered token is exactly what the
    /// scanner yields at position `tok_start`, and scanning it left the
    /// cursor at `pos`.
    spec fn tok_wf(self) -> bool {
        match self.current_token {
            Some(t) => {
                &&& 0 <= self.tok_start@ <= self.src().len()
                &&& spec_next_token(self.src(), self.tok_start@) == Ok::<(Token, int), EvalError>(
                    (t, self.pos as int),
                )
            },
            None => true,
        }
    }

    pub fn new(text: &'a str) -> (it: Self)
        ensures
            it.wf(),
            it.src() == text@,
            it.fresh(),
    {
        let len = text.unicode_len();
        let current_char = if len > 0 {
            Some(text.get_char(0))
        } else {
            None
        };
        Self { text, pos: 0, current_token: None, current_char, tok_start: Ghost(0int) }
    }

    fn advance(&mut self)
        requires
            old(self).wf(),
            old(self).pos < old(self).src().len(),
        ensures
            final(self).wf(),
            final(self).text == old(self).text,
            final(self).pos == old(self).pos + 1,
            final(self).current_token == old(self).current_token,
            final(self).tok_start == old(self).tok_start,
    {
        let len = self.text.unicode_len();
        self.pos = self.pos + 1;
        if self.pos >= len {
            self.current_char = None;
        } else {
            self.current_char = Some(self.text.get_char(self.pos));
        }
    }

    fn skip_whitespace(&mut self)
        requires
            old(self).wf(),
        ensures
            final(self).wf(),
            final(self).text == old(self).text,
            final(self).current_token == old(self).current_token,
            final(self).tok_start == old(self).tok_start,
            final(self).pos == spec_skip_ws(old(self).src(), old(self).pos as int),
    {
        loop
            invariant
                self.wf(),
                self.text == old(self).text,
                self.current_token == old(self).current_token,
                self.tok_start == old(self).tok_start,
                old(self).pos <= self.pos,
                spec_skip_ws(self.src(), self.pos as int) == spec_skip_ws(
                    old(self).src(),
                    old(self).pos as int,
                ),
            ensures
                self.pos == self.src().len() || !is_space_char(self.src()[self.pos as int]),
            decreases self.src().len() - self.pos,
        {
            match self.current_char {
                Some(current_char) => {
                    if is_space(current_char) {
                        self.advance();
                    } else {
                        break;
                    }
                },
                None => {
                    break;
                },
            }
        }
    }

    fn integer(&mut self) -> (r: Result<TokenNumValue, EvalError>)
        requires
            old(self).wf(),
            old(self).pos < old(self).src().len(),
            is_digit_char(old(self).src()[old(self).pos as int]),
        ensures
            final(self).wf(),
            final(self).text == old(self).text,
            final(self).current_token == old(self).current_token,
            final(self).tok_start == old(self).tok_start,
            ({
                let s = old(self).src();
                let start = old(self).pos as int;
                let e = spec_digit_run_end(s, start);
                let v = num_val(s.subrange(start, e));
                match r {
                    Ok(n) => v <= i64::MAX && n == v && final(self).pos == e,
                    Err(err) => err == EvalError::IntegerOverflow && v > i64::MAX,
                }
            }),
    {
        let ghost s = self.src();
        let ghost start = self.pos as int;
        let ghost e = spec_digit_run_end(s, start);
        proof {
            lemma_digit_run_bounds(s, start);
        }
        let mut res: i64 = 0;
        loop
            invariant
                self.wf(),
                self.text == old(self).text,
                self.current_token == old(self).current_token,
                self.tok_start == old(self).tok_start,
                s == self.src(),
                start == old(self).pos as int,
                0 <= start <= self.pos <= s.len(),
                e == spec_digit_run_end(s, start),
                spec_digit_run_end(s, self.pos as int) == e,
                forall|i: int| start <= i < self.pos ==> is_digit_char(#[trigger] s[i]),
                res == num_val(s.subrange(start, self.pos as int)),
                res >= 0,
            ensures
                self.pos == s.len() || !is_digit_char(s[self.pos as int]),
            decreases s.len() - self.pos,
        {
            match self.current_char {
                Some(current_char) => {
                    if is_digit(current_char) {
                        let ghost p = self.pos as int;
                        proof {
                            assert(p < s.len());
                            assert(0 <= start <= p);
                            let pre = s.subrange(start, p + 1);
                            assert(pre.len() == p + 1 - start);
                            assert(pre.drop_last() =~= s.subrange(start, p));
                            assert(pre.last() == s[p]);
                        }
                        let d = digit_value(current_char);
                        let overflowed: bool;
                        match res.checked_mul(10) {
                            Some(m) => {
                                match m.checked_add(d) {
                                    Some(next_res) => {
                                        res = next_res;
                                        overflowed = false;
                                    },
                                    None => {
                                        overflowed = true;
                                    },
                                }
                            },
                            None => {
                                overflowed = true;
                            },
                        }
                        if overflowed {
                            proof {
                                lemma_digit_run_bounds(s, p);
                                assert(p + 1 <= e);
                                assert(num_val(s.subrange(start, p + 1)) > i64::MAX);
                                assert(all_digits(s.subrange(start, e)));
                                assert(s.subrange(start, e).take(p + 1 - start) =~= s.subrange(
                                    start,
                                    p + 1,
                                ));
                                lemma_num_val_prefix_le(s.subrange(start, e), p + 1 - start);
                            }
                            return Err(EvalError::IntegerOverflow);
                        }
                        self.advance();
                    } else {
                        break;
                    }
                },
                None => {
                    break;
                },
            }
        }
        proof {
            assert(spec_digit_run_end(s, self.pos as int) == self.pos as int);
        }
        Ok(res)
    }

    // Lexical analyzer
    fn get_next_token(&mut self) -> (r: Result<Token, EvalError>)
        requires
            old(self).wf(),
        ensures
            final(self).wf(),
            final(self).text == old(self).text,
            final(self).current_token == old(self).current_token,
            final(self).tok_start == old(self).tok_start,
            match r {
                Ok(t) => spec_next_token(old(self).src(), old(self).pos as int) == Ok::<
                    (Token, int),
                    EvalError,
                >((t, final(self).pos as int)),
                Err(e) => spec_next_token(old(self).src(), old(self).pos as int) == Err::<
                    (Token, int),
                    EvalError,
                >(e),
            },
    {
        let ghost s = self.src();
        let ghost p0 = self.pos as int;
        self.skip_whitespace();
        proof {
            lemma_skip_ws_bounds(s, p0);
        }
        match self.current_char {
            Some(current_char) => {
                if is_digit(current_char) {
                    let ghost q = self.pos as int;
                    let ghost e = spec_digit_run_end(s, q);
                    proof {
                        lemma_digit_run_bounds(s, q);
                        assert(all_digits(s.subrange(q, e)));
                        lemma_num_val_nonneg(s.subrange(q, e));
                    }
                    match self.integer() {
                        Ok(num) => Ok(Token::new_num(TokenType::Integer, num)),
                        Err(err) => Err(err),
                    }
                } else if current_char == '+' {
                    self.advance();
                    Ok(Token::new_op(TokenType::Add, TokenOpValue::Plus))
                } else if current_char == '-' {
                    self.advance();
                    Ok(Token::new_op(TokenType::Subtract, TokenOpValue::Minus))
                } else if current_char == '*' {
                    self.advance();
                    Ok(Token::new_op(TokenType::Multiply, TokenOpValue::Asterisk))
                } else if current_char == '/' {
                    self.advance();
                    Ok(Token::new_op(TokenType::Divide, TokenOpValue::Slash))
                } else {
                    Err(EvalError::UnexpectedCharacter(current_char, self.pos))
                }
            },
            None => Ok(Token::new_op(TokenType::Eof, TokenOpValue::NoOp)),
        }
    }

    /// Consumes the buffered token after checking its kind, and refills
    /// the buffer with the next token from the scanner. A kind mismatch
    /// rejects the parse with `UnexpectedToken`.
    fn eat(&mut self, token_type: TokenType) -> (r: Result<(), EvalError>)
        requires
            old(self).wf(),
            old(self).tok_wf(),
            old(self).current_token is Some,
        ensures
            final(self).wf(),
            final(self).text == old(self).text,
            match r {
                Ok(()) => {
                    &&& (old(self).current_token matches Some(t) && t.typ == token_type)
                    &&& final(self).tok_wf()
                    &&& final(self).current_token is Some
                    &&& final(self).tok_start@ == old(self).pos as int
                },
                Err(e) => match old(self).current_token {
                    Some(t) => {
                        if t.typ == token_type {
                            spec_next_token(old(self).src(), old(self).pos as int) == Err::<
                                (Token, int),
                                EvalError,
                            >(e)
                        } else {
                            e == (EvalError::UnexpectedToken {
                                expected: token_type,
                                found: t.typ,
                            })
                        }
                    },
                    None => false,
                },
            },
    {
        let cur = self.current_token.unwrap();
        if cur.typ == token_type {
            let ghost start = self.pos as int;
            match self.get_next_token() {
                Ok(t) => {
                    self.current_token = Some(t);
                    self.tok_start = Ghost(start);
                    Ok(())
                },
                Err(err) => Err(err),
            }
        } else {
            Err(EvalError::UnexpectedToken { expected: token_type, found: cur.typ })
        }
    }

    /// `factor := Number`: consumes one integer literal token and returns
    /// its value.
    fn factor(&mut self) -> (r: Result<TokenNumValue, EvalError>)
        requires
            old(self).wf(),
            old(self).tok_wf(),
            old(self).current_token is Some,
        ensures
            final(self).wf(),
            final(self).text == old(self).text,
            match r {
                Ok(v) => {
                    &&& v >= 0
                    &&& (spec_factor(old(self).src(), old(self).tok_start@) matches Ok(pr)
                        && pr.0 == v as int && pr.1 == final(self).tok_start@)
                    &&& final(self).tok_wf()
                    &&& final(self).current_token is Some
                },
                Err(e) => {
                    ||| spec_factor(old(self).src(), old(self).tok_start@) == Err::<
                        (int, int),
                        EvalError,
                    >(e)
                    ||| (spec_factor(old(self).src(), old(self).tok_start@) matches Ok(pr)
                        && spec_next_token(old(self).src(), pr.1) == Err::<
                        (Token, int),
                        EvalError,
                    >(e))
                },
            },
    {
        let ghost s = self.src();
        let ghost tp = self.tok_start@;
        proof {
            lemma_next_token_bounds(s, tp);
        }
        let cur = self.current_token.unwrap();
        match self.eat(TokenType::Integer) {
            Ok(()) => {
                let v = match cur.val {
                    TokenValue::TokenNumValue(num) => num,
                    TokenValue::TokenOpValue(_) => 0,
                };
                Ok(v)
            },
            Err(err) => Err(err),
        }
    }

    /// `term := factor (("*" | "/") factor)*`: folds multiplications and
    /// divisions left to right as it consumes them.
    fn term(&mut self) -> (r: Result<TokenNumValue, EvalError>)
        requires
            old(self).wf(),
            old(self).tok_wf(),
            old(self).current_token is Some,
        ensures
            final(self).wf(),
            final(self).text == old(self).text,
            match r {
                Ok(v) => {
                    &&& v >= 0
                    &&& (spec_term(old(self).src(), old(self).tok_start@) matches Ok(pr)
                        && pr.0 == v as int && pr.1 == final(self).tok_start@)
                    &&& final(self).tok_wf()
                    &&& final(self).current_token is Some
                },
                Err(e) => spec_term(old(self).src(), old(self).tok_start@) == Err::<
                    (int, int),
                    EvalError,
                >(e),
            },
    {
        let ghost s = self.src();
        let ghost tp0 = self.tok_start@;
        proof {
            lemma_next_token_bounds(s, tp0);
        }
        let mut acc = match self.factor() {
            Ok(v) => v,
            Err(e) => {
                return Err(e);
            },
        };
        loop
            invariant
                self.wf(),
                self.tok_wf(),
                self.current_token is Some,
                self.text == old(self).text,
                s == self.src(),
                tp0 == old(self).tok_start@,
                acc >= 0,
                0 <= self.tok_start@ <= s.len(),
                spec_term(s, tp0) == spec_term_rest(s, self.tok_start@, acc as int),
            ensures
                self.wf(),
                self.tok_wf(),
                self.current_token is Some,
                self.text == old(self).text,
                spec_term(s, tp0) == Ok::<(int, int), EvalError>((acc as int, self.tok_start@)),
            decreases s.len() - self.tok_start@,
        {
            let ghost tp = self.tok_start@;
            proof {
                lemma_next_token_bounds(s, tp);
            }
            let cur = self.current_token.unwrap();
            if cur.typ == TokenType::Multiply {
                match self.eat(TokenType::Multiply) {
                    Ok(()) => (),
                    Err(e) => {
                        return Err(e);
                    },
                }
                let ghost p1 = self.tok_start@;
                proof {
                    lemma_factor_bounds(s, p1);
                }
                let w = match self.factor() {
                    Ok(v) => v,
                    Err(e) => {
                        return Err(e);
                    },
                };
                match acc.checked_mul(w) {
                    Some(m) => {
                        proof {
                            vstd::arithmetic::mul::lemma_mul_nonnegative(acc as int, w as int);
                        }
                        acc = m;
                    },
                    None => {
                        return Err(EvalError::IntegerOverflow);
                    },
                }
            } else if cur.typ == TokenType::Divide {
                match self.eat(TokenType::Divide) {
                    Ok(()) => (),
                    Err(e) => {
                        return Err(e);
                    },
                }
                let ghost p1 = self.tok_start@;
                proof {
                    lemma_factor_bounds(s, p1);
                }
                let w = match self.factor() {
                    Ok(v) => v,
                    Err(e) => {
                        return Err(e);
                    },
                };
                if w == 0 {
                    return Err(EvalError::DivisionByZero);
                } else {
                    proof {
                        vstd::arithmetic::div_mod::lemma_div_pos_is_pos(acc as int, w as int);
                        vstd::arithmetic::div_mod::lemma_div_nonincreasing(acc as int, w as int);
                    }
                    acc = acc.checked_div(w).unwrap();
                }
            } else {
                break;
            }
        }
        Ok(acc)
    }

    /// `expression := term (("+" | "-") term)*`, the parse entry point:
    /// seeds the token buffer, rejects an empty input, folds additions
    /// and subtractions left to right, and finally demands the end of
    /// input, so that no trailing text is ever ignored. The result is
    /// exactly what `spec_evaluate` assigns to the source text.
    #[verifier::rlimit(60)]
    pub fn expr(&mut self) -> (r: Result<ExprResult, EvalError>)
        requires
            old(self).wf(),
            old(self).fresh(),
        ensures
            evaluation_matches(r, old(self).src()),
    {
        let ghost s = self.src();
        let first = match self.get_next_token() {
            Ok(t) => t,
            Err(e) => {
                return Err(e);
            },
        };
        self.current_token = Some(first);
        self.tok_start = Ghost(0int);
        if first.typ == TokenType::Eof {
            return Err(EvalError::EmptyInput);
        }
        let mut acc = match self.term() {
            Ok(v) => v,
            Err(e) => {
                return Err(e);
            },
        };
        loop
            invariant
                self.wf(),
                self.tok_wf(),
                self.current_token is Some,
                self.text == old(self).text,
                s == self.src(),
                (spec_next_token(s, 0) matches Ok(pr) && pr.0.typ != TokenType::Eof),
                0 <= self.tok_start@ <= s.len(),
                spec_expr(s, 0) == spec_expr_rest(s, self.tok_start@, acc as int),
            ensures
                self.wf(),
                self.tok_wf(),
                self.current_token is Some,
                self.text == old(self).text,
                s == self.src(),
                (spec_next_token(s, 0) matches Ok(pr) && pr.0.typ != TokenType::Eof),
                spec_expr(s, 0) == Ok::<(int, int), EvalError>((acc as int, self.tok_start@)),
            decreases s.len() - self.tok_start@,
        {
            let ghost tp = self.tok_start@;
            proof {
                lemma_next_token_bounds(s, tp);
            }
            let cur = self.current_token.unwrap();
            if cur.typ == TokenType::Add {
                match self.eat(TokenType::Add) {
                    Ok(()) => (),
                    Err(e) => {
                        return Err(e);
                    },
                }
                let ghost p1 = self.tok_start@;
                proof {
                    lemma_term_bounds(s, p1);
                }
                let w = match self.term() {
                    Ok(v) => v,
                    Err(e) => {
                        return Err(e);
                    },
                };
                match acc.checked_add(w) {
                    Some(m) => {
                        acc = m;
                    },
                    None => {
                        return Err(EvalError::IntegerOverflow);
                    },
                }
            } else if cur.typ == TokenType::Subtract {
                match self.eat(TokenType::Subtract) {
                    Ok(()) => (),
                    Err(e) => {
                        return Err(e);
                    },
                }
                let ghost p1 = self.tok_start@;
                proof {
                    lemma_term_bounds(s, p1);
                }
                let w = match self.term() {
                    Ok(v) => v,
                    Err(e) => {
                        return Err(e);
                    },
                };
                match acc.checked_sub(w) {
                    Some(m) => {
                        acc = m;
                    },
                    None => {
                        return Err(EvalError::IntegerOverflow);
                    },
                }
            } else {
                break;
            }
        }
        let cur = self.current_token.unwrap();
        if cur.typ == TokenType::Eof {
            Ok(acc)
        } else {
            Err(EvalError::UnexpectedToken { expected: TokenType::Eof, found: cur.typ })
        }
    }
}

/// Evaluates one arithmetic expression held in `text`: the value of the
/// expression under standard precedence and left-associativity, or the
/// error that rejects it. The result depends on the text alone, exactly
/// as `spec_evaluate` assigns it.
pub fn evaluate(text: &str) -> (r: Result<ExprResult, EvalError>)
    ensures
        evaluation_matches(r, text@),
{
    let mut interpreter = Interpreter::new(text);
    interpreter.expr()
}

} // verus!
