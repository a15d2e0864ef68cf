use calc::interpreter::{evaluate, EvalError, Interpreter};
use calc::token::TokenType;

#[test]
fn adds_two_numbers() {
    assert_eq!(evaluate("7+35"), Ok(42));
}

#[test]
fn subtracts_two_numbers() {
    assert_eq!(evaluate("10-4"), Ok(6));
}

#[test]
fn subtraction_may_go_negative() {
    assert_eq!(evaluate("2-3"), Ok(-1));
}

#[test]
fn multiplies_two_numbers() {
    assert_eq!(evaluate("6*7"), Ok(42));
}

#[test]
fn divides_two_numbers() {
    assert_eq!(evaluate("84/2"), Ok(42));
}

#[test]
fn division_truncates_toward_zero() {
    assert_eq!(evaluate("7/2"), Ok(3));
}

#[test]
fn single_number_evaluates_to_itself() {
    assert_eq!(evaluate("0"), Ok(0));
    assert_eq!(evaluate("123"), Ok(123));
    assert_eq!(evaluate("9223372036854775807"), Ok(i64::MAX));
}

#[test]
fn multiplication_binds_tighter_on_the_right() {
    assert_eq!(evaluate("2+3*4"), Ok(14));
}

#[test]
fn multiplication_binds_tighter_on_the_left() {
    assert_eq!(evaluate("2*3+4"), Ok(10));
}

#[test]
fn division_binds_tighter_than_addition() {
    assert_eq!(evaluate("2+6/2"), Ok(5));
}

#[test]
fn subtraction_associates_left() {
    assert_eq!(evaluate("10-2-3"), Ok(5));
}

#[test]
fn division_associates_left() {
    assert_eq!(evaluate("20/2/2"), Ok(5));
}

#[test]
fn longer_chains_fold_left() {
    assert_eq!(evaluate("100/5/2"), Ok(10));
    assert_eq!(evaluate("1+2+3+4*5"), Ok(26));
}

#[test]
fn whitespace_is_insignificant() {
    assert_eq!(evaluate("  2 +   3 "), evaluate("2+3"));
    assert_eq!(evaluate("  2 +   3 "), Ok(5));
}

#[test]
fn tabs_and_line_breaks_are_whitespace() {
    assert_eq!(evaluate("\t2\n+\r3"), Ok(5));
}

#[test]
fn division_by_zero_is_reported() {
    assert_eq!(evaluate("5/0"), Err(EvalError::DivisionByZero));
}

#[test]
fn division_by_zero_after_other_operators() {
    assert_eq!(evaluate("1+5/0"), Err(EvalError::DivisionByZero));
}

#[test]
fn empty_input_is_rejected() {
    assert_eq!(evaluate(""), Err(EvalError::EmptyInput));
}

#[test]
fn whitespace_only_input_is_rejected() {
    assert_eq!(evaluate("   "), Err(EvalError::EmptyInput));
}

#[test]
fn trailing_operator_is_rejected() {
    assert_eq!(
        evaluate("2+"),
        Err(EvalError::UnexpectedToken { expected: TokenType::Integer, found: TokenType::Eof })
    );
}

#[test]
fn doubled_operator_is_rejected() {
    assert_eq!(
        evaluate("2++3"),
        Err(EvalError::UnexpectedToken { expected: TokenType::Integer, found: TokenType::Add })
    );
}

#[test]
fn stray_character_after_expression_is_rejected() {
    assert_eq!(evaluate("2+3x"), Err(EvalError::UnexpectedCharacter('x', 3)));
}

#[test]
fn stray_character_up_front_is_rejected() {
    assert_eq!(evaluate("a"), Err(EvalError::UnexpectedCharacter('a', 0)));
}

#[test]
fn trailing_number_is_rejected() {
    assert_eq!(
        evaluate("2+3 4"),
        Err(EvalError::UnexpectedToken { expected: TokenType::Eof, found: TokenType::Integer })
    );
}

#[test]
fn literal_overflow_is_reported() {
    assert_eq!(evaluate("9223372036854775808"), Err(EvalError::IntegerOverflow));
}

#[test]
fn addition_overflow_is_reported() {
    assert_eq!(evaluate("9223372036854775807+1"), Err(EvalError::IntegerOverflow));
}

#[test]
fn multiplication_overflow_is_reported() {
    assert_eq!(evaluate("4294967296*4294967296"), Err(EvalError::IntegerOverflow));
}

#[test]
fn zero_behaves_in_products_and_quotients() {
    assert_eq!(evaluate("0/5"), Ok(0));
    assert_eq!(evaluate("5*0"), Ok(0));
    assert_eq!(evaluate("0+0"), Ok(0));
}

#[test]
fn repeated_evaluation_gives_the_same_result() {
    let first = evaluate("12*3-4");
    let second = evaluate("12*3-4");
    assert_eq!(first, second);
    assert_eq!(first, Ok(32));
}

#[test]
fn interpreter_evaluates_once() {
    let mut interpreter = Interpreter::new("2+3*4");
    assert_eq!(interpreter.expr(), Ok(14));
}
