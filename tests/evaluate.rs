use calculator::interpreter::{evaluate, Interpreter};
use calculator::token::{EvalError, TokenType};

fn eval_str(s: &str) -> Result<i64, EvalError> {
    evaluate(s.to_string())
}

#[test]
fn whitespace_does_not_matter() {
    assert_eq!(eval_str("1+2"), Ok(3));
    assert_eq!(eval_str(" 1 + 2 "), Ok(3));
    assert_eq!(eval_str("1  +  2"), Ok(3));
}

#[test]
fn spaces_do_not_change_errors() {
    assert_eq!(eval_str(" 1 + a "), eval_str("1+a"));
    assert_eq!(eval_str("1 + "), eval_str("1+"));
    assert_eq!(eval_str(" + 1"), eval_str("+1"));
    assert_eq!(eval_str("1 + + 2"), Err(EvalError::GrammarError));
    assert_eq!(eval_str(" 12 -  5 +1"), eval_str("12-5+1"));
}

#[test]
fn multi_digit_number_is_one_token() {
    assert_eq!(eval_str("12+3"), Ok(15));
}

#[test]
fn operators_apply_left_to_right() {
    assert_eq!(eval_str("10-2+3"), Ok(11));
}

#[test]
fn single_number() {
    assert_eq!(eval_str("42"), Ok(42));
}

#[test]
fn invalid_character_is_lexical_error() {
    assert_eq!(eval_str("1+a"), Err(EvalError::LexicalError));
    assert_eq!(eval_str("x"), Err(EvalError::LexicalError));
    assert_eq!(eval_str("1+\u{e9}"), Err(EvalError::LexicalError));
    assert_eq!(eval_str("1*2"), Err(EvalError::LexicalError));
}

#[test]
fn two_numbers_in_a_row_is_grammar_error() {
    assert_eq!(eval_str("1 2"), Err(EvalError::GrammarError));
}

#[test]
fn trailing_operator_is_grammar_error() {
    assert_eq!(eval_str("1+"), Err(EvalError::GrammarError));
    assert_eq!(eval_str("1 - "), Err(EvalError::GrammarError));
}

#[test]
fn leading_operator_is_grammar_error() {
    assert_eq!(eval_str("+1"), Err(EvalError::GrammarError));
    assert_eq!(eval_str("-1"), Err(EvalError::GrammarError));
}

#[test]
fn empty_line_is_grammar_error() {
    assert_eq!(eval_str(""), Err(EvalError::GrammarError));
    assert_eq!(eval_str("   "), Err(EvalError::GrammarError));
}

#[test]
fn grammar_error_comes_before_a_later_bad_character() {
    assert_eq!(eval_str("1 2 a"), Err(EvalError::GrammarError));
}

#[test]
fn same_line_twice_gives_same_result() {
    for line in ["7 - 10 + 1", "1+a", "1 2", "123"] {
        let first = Interpreter::new(line.to_string()).expr();
        let second = Interpreter::new(line.to_string()).expr();
        assert_eq!(first, second);
    }
    assert_eq!(Interpreter::new("7 - 10 + 1".to_string()).expr(), Ok(-2));
}

#[test]
fn fold_of_many_terms() {
    assert_eq!(eval_str(" 100 -1-  2 +30 - 400 "), Ok(-273));
    assert_eq!(eval_str("0+0-0"), Ok(0));
    assert_eq!(eval_str("007+1"), Ok(8));
}

#[test]
fn operator_after_operator_is_grammar_error() {
    assert_eq!(eval_str("1++2"), Err(EvalError::GrammarError));
    assert_eq!(eval_str("5+-2"), Err(EvalError::GrammarError));
    assert_eq!(eval_str("5 - + 2"), Err(EvalError::GrammarError));
}

#[test]
fn number_after_number_is_grammar_error() {
    assert_eq!(eval_str("1+2 3"), Err(EvalError::GrammarError));
    assert_eq!(eval_str("10-2 3"), Err(EvalError::GrammarError));
}

#[test]
fn expr_consumes_whole_line() {
    let mut i = Interpreter::new("42".to_string());
    assert_eq!(i.expr(), Ok(42));
    assert_eq!(i.pos, 2);
    assert_eq!(i.current_char, None);
    let t = i.current_token.as_ref().unwrap();
    assert_eq!(t.token_type, TokenType::Eof);
    assert!(t.value.is_none());
}

#[test]
fn largest_values() {
    assert_eq!(eval_str("9223372036854775807"), Ok(i64::MAX));
    assert_eq!(eval_str("0-9223372036854775807-1"), Ok(i64::MIN));
}

#[test]
fn overflow_is_reported() {
    assert_eq!(eval_str("9223372036854775808"), Err(EvalError::Overflow));
    assert_eq!(eval_str("9223372036854775807+1"), Err(EvalError::Overflow));
    assert_eq!(eval_str("0-9223372036854775807-2"), Err(EvalError::Overflow));
    assert_eq!(eval_str("1-99999999999999999999999"), Err(EvalError::Overflow));
}
