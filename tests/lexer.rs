use calculator::interpreter::Interpreter;
use calculator::token::{EvalError, Token, TokenType};

#[test]
fn new_caches_first_character() {
    let i = Interpreter::new("42".to_string());
    assert_eq!(i.pos, 0);
    assert_eq!(i.current_char, Some('4'));
    assert!(i.current_token.is_none());
    let e = Interpreter::new(String::new());
    assert_eq!(e.current_char, None);
}

#[test]
fn advance_moves_and_reaches_end() {
    let mut i = Interpreter::new("a\u{e9}".to_string());
    i.advance();
    assert_eq!(i.pos, 1);
    assert_eq!(i.current_char, Some('\u{e9}'));
    i.advance();
    assert_eq!(i.pos, 2);
    assert_eq!(i.current_char, None);
}

#[test]
fn skip_whitespace_skips_spaces_only() {
    let mut i = Interpreter::new("   7".to_string());
    i.skip_whitespace();
    assert_eq!(i.pos, 3);
    assert_eq!(i.current_char, Some('7'));
    i.skip_whitespace();
    assert_eq!(i.pos, 3);
}

#[test]
fn number_reads_whole_digit_run() {
    let mut i = Interpreter::new("123+4".to_string());
    assert_eq!(i.number(), "123");
    assert_eq!(i.current_char, Some('+'));
    let mut j = Interpreter::new("+4".to_string());
    assert_eq!(j.number(), "");
    assert_eq!(j.pos, 0);
}

#[test]
fn token_stream() {
    let mut i = Interpreter::new(" 12 +3- 4".to_string());
    let expected = [
        (TokenType::Number, Some("12")),
        (TokenType::Plus, Some("+")),
        (TokenType::Number, Some("3")),
        (TokenType::Minus, Some("-")),
        (TokenType::Number, Some("4")),
        (TokenType::Eof, None),
        (TokenType::Eof, None),
    ];
    for (ty, value) in expected {
        let t = i.get_next_token().unwrap();
        assert_eq!(t.token_type, ty);
        assert_eq!(t.value.as_deref(), value);
    }
}

#[test]
fn bad_character_stops_lexer() {
    let mut i = Interpreter::new("1 ?".to_string());
    assert_eq!(i.get_next_token().unwrap().token_type, TokenType::Number);
    assert_eq!(i.get_next_token().unwrap_err(), EvalError::LexicalError);
}

#[test]
fn eat_checks_kind() {
    let mut i = Interpreter::new("1+2".to_string());
    assert_eq!(i.eat(TokenType::Number), Err(EvalError::GrammarError));
    assert_eq!(i.pos, 0);
    i.current_token = Some(i.get_next_token().unwrap());
    assert_eq!(i.eat(TokenType::Plus), Err(EvalError::GrammarError));
    assert_eq!(i.pos, 1);
    assert_eq!(i.eat(TokenType::Number), Ok(()));
    assert_eq!(i.current_token.as_ref().unwrap().token_type, TokenType::Plus);
}

#[test]
fn token_value_to_number() {
    let t = Token::new(TokenType::Number, Some("9075".to_string()));
    assert_eq!(t.value_to_number(), Ok(9075));
    let big = Token::new(TokenType::Number, Some("18446744073709551616".to_string()));
    assert_eq!(big.value_to_number(), Err(EvalError::Overflow));
    let z = Token::new(TokenType::Number, Some("0".to_string()));
    assert_eq!(z.value_to_number(), Ok(0));
}
