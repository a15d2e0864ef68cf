use calc::numeral::{i64_to_string, u64_to_string};
use calc::token::{Token, TokenOpValue, TokenType};

#[test]
fn number_token_prints_kind_and_value() {
    let token = Token::new_num(TokenType::Integer, 3);
    assert_eq!(token.string(), "Token(Integer, 3)");
}

#[test]
fn negative_number_token_prints_sign() {
    let token = Token::new_num(TokenType::Integer, -5);
    assert_eq!(token.string(), "Token(Integer, -5)");
}

#[test]
fn operator_token_prints_kind_and_symbol() {
    let token = Token::new_op(TokenType::Add, TokenOpValue::Plus);
    assert_eq!(token.string(), "Token(Add, +)");
}

#[test]
fn end_of_input_token_prints_empty_symbol() {
    let token = Token::new_op(TokenType::Eof, TokenOpValue::NoOp);
    assert_eq!(token.string(), "Token(Eof, )");
}

#[test]
fn token_type_names() {
    assert_eq!(TokenType::Integer.val(), "Integer");
    assert_eq!(TokenType::Add.val(), "Add");
    assert_eq!(TokenType::Subtract.val(), "Subtract");
    assert_eq!(TokenType::Multiply.val(), "Multiply");
    assert_eq!(TokenType::Divide.val(), "Divide");
    assert_eq!(TokenType::Eof.val(), "Eof");
}

#[test]
fn operator_symbols() {
    assert_eq!(TokenOpValue::NoOp.val(), "");
    assert_eq!(TokenOpValue::Plus.val(), "+");
    assert_eq!(TokenOpValue::Minus.val(), "-");
    assert_eq!(TokenOpValue::Asterisk.val(), "*");
    assert_eq!(TokenOpValue::Slash.val(), "/");
}

#[test]
fn token_types_compare_by_kind() {
    assert_eq!(TokenType::Add, TokenType::Add);
    assert_ne!(TokenType::Add, TokenType::Subtract);
    assert_eq!(TokenOpValue::Slash, TokenOpValue::Slash);
    assert_ne!(TokenOpValue::Plus, TokenOpValue::Minus);
}

#[test]
fn renders_unsigned_decimals() {
    assert_eq!(u64_to_string(0), "0");
    assert_eq!(u64_to_string(7), "7");
    assert_eq!(u64_to_string(12345), "12345");
    assert_eq!(u64_to_string(u64::MAX), "18446744073709551615");
}

#[test]
fn renders_signed_decimals() {
    assert_eq!(i64_to_string(0), "0");
    assert_eq!(i64_to_string(-42), "-42");
    assert_eq!(i64_to_string(i64::MIN), "-9223372036854775808");
    assert_eq!(i64_to_string(i64::MAX), "9223372036854775807");
}
