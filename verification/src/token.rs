//! Tokens: the smallest lexical units the scanner produces — an integer
//! literal or an operator symbol — consumed exactly once by the parser.

use crate::numeral::{i64_to_string, spec_int_str};
use vstd::prelude::*;

verus! {

/// The kind of a token: an integer literal, one of the four binary
/// operators, or the end-of-input marker.
#[derive(Clone, Copy, Debug, PartialEq, Eq, Structural)]
pub enum TokenType {
    Integer,
    Add,
    Subtract,
    Multiply,
    Divide,
    Eof,
}

impl TokenType {
    /// The printable name of this token kind.
    pub open spec fn spec_val(self) -> Seq<char> {
        match self {
            TokenType::Integer => "Integer"@,
            TokenType::Add => "Add"@,
            TokenType::Subtract => "Subtract"@,
            TokenType::Multiply => "Multiply"@,
            TokenType::Divide => "Divide"@,
            TokenType::Eof => "Eof"@,
        }
    }

    pub fn val<'a>(&self) -> (r: &'a str)
        ensures
            r@ == self.spec_val(),
    {
        match *self {
            TokenType::Integer => "Integer",
            TokenType::Add => "Add",
            TokenType::Subtract => "Subtract",
            TokenType::Multiply => "Multiply",
            TokenType::Divide => "Divide",
            TokenType::Eof => "Eof",
        }
    }
}

/// The symbol an operator token was scanned from; `NoOp` marks the
/// end-of-input token, which has no source character.
#[derive(Clone, Copy, Debug, PartialEq, Eq, Structural)]
pub enum TokenOpValue {
    NoOp,
    Plus,
    Minus,
    Asterisk,
    Slash,
}

impl TokenOpValue {
    /// The source spelling of this operator symbol.
    pub open spec fn spec_val(self) -> Seq<char> {
        match self {
            TokenOpValue::NoOp => ""@,
            TokenOpValue::Plus => "+"@,
            TokenOpValue::Minus => "-"@,
            TokenOpValue::Asterisk => "*"@,
            TokenOpValue::Slash => "/"@,
        }
    }

    pub fn val<'a>(&self) -> (r: &'a str)
        ensures
            r@ == self.spec_val(),
    {
        match *self {
            TokenOpValue::NoOp => "",
            TokenOpValue::Plus => "+",
            TokenOpValue::Minus => "-",
            TokenOpValue::Asterisk => "*",
            TokenOpValue::Slash => "/",
        }
    }
}

pub type TokenNumValue = i64;

/// The payload of a token: the numeric value of an integer literal, or
/// the operator symbol it was scanned from.
#[derive(Clone, Copy, Debug, PartialEq, Eq, Structural)]
pub enum TokenValue {
    TokenNumValue(TokenNumValue),
    TokenOpValue(TokenOpValue),
}

/// A token: its kind together with its payload.
#[derive(Clone, Copy, Debug, PartialEq, Eq, Structural)]
pub struct Token {
    pub typ: TokenType,
    pub val: TokenValue,
}

impl Token {
    pub fn new_num(typ: TokenType, val: TokenNumValue) -> (t: Token)
        ensures
            t == (Token { typ, val: TokenValue::TokenNumValue(val) }),
    {
        Token { typ, val: TokenValue::TokenNumValue(val) }
    }

    pub fn new_op(typ: TokenType, val: TokenOpValue) -> (t: Token)
        ensures
            t == (Token { typ, val: TokenValue::TokenOpValue(val) }),
    {
        Token { typ, val: TokenValue::TokenOpValue(val) }
    }

    /// The printable form of this token: its kind's name and its payload,
    /// a numeric literal in decimal or an operator's source spelling.
    pub open spec fn spec_string(self) -> Seq<char> {
        "Token("@ + self.typ.spec_val() + ", "@ + (match self.val {
            TokenValue::TokenNumValue(n) => spec_int_str(n as int),
            TokenValue::TokenOpValue(op) => op.spec_val(),
        }) + ")"@
    }

    pub fn string(&self) -> (s: String)
        ensures
            s@ == self.spec_string(),
    {
        let mut s = String::from_str("Token(");
        s.append(self.typ.val());
        s.append(", ");
        match self.val {
            TokenValue::TokenNumValue(n) => {
                let num_text = i64_to_string(n);
                s.append(num_text.as_str());
            },
            TokenValue::TokenOpValue(op) => {
                s.append(op.val());
            },
        }
        s.append(")");
        proof {
            assert(s@ =~= self.spec_string());
        }
        s
    }
}

} // verus!
