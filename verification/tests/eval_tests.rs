//! Tests of the expression evaluator.

use focdle::eval::fast_eval;

#[test]
fn eval_precedence_modulo_binds_tighter() {
    // 13 % 12 evaluates first, then 12 + 1.
    assert_eq!(fast_eval("12+13%12"), Some(13));
}

#[test]
fn eval_modulo_by_zero_is_invalid() {
    assert_eq!(fast_eval("1%0+2"), None);
}

#[test]
fn eval_left_to_right_on_equal_precedence() {
    assert_eq!(fast_eval("12-2+3"), Some(13));
    assert_eq!(fast_eval("2*3*4"), Some(24));
    assert_eq!(fast_eval("5%7*2"), Some(10));
}

#[test]
fn eval_second_operator_first_when_tighter() {
    assert_eq!(fast_eval("1+2*3"), Some(7));
    assert_eq!(fast_eval("2*3+4"), Some(10));
    assert_eq!(fast_eval("1-9%5"), Some(-3));
}

#[test]
fn eval_wrong_operand_count_is_invalid() {
    assert_eq!(fast_eval("1+2"), None);
    assert_eq!(fast_eval("1+2+3+4"), None);
    assert_eq!(fast_eval(""), None);
    assert_eq!(fast_eval("7"), None);
}

#[test]
fn eval_malformed_tokens_are_invalid() {
    assert_eq!(fast_eval("1++2+3"), None);
    assert_eq!(fast_eval("1+2+3+"), None);
    assert_eq!(fast_eval("+1+2"), None);
    assert_eq!(fast_eval("1+2=3"), None);
    assert_eq!(fast_eval("123+4+5"), None);
}

#[test]
fn eval_two_digit_operands() {
    assert_eq!(fast_eval("99*99*99"), Some(970299));
    assert_eq!(fast_eval("10-99%10"), Some(1));
}
