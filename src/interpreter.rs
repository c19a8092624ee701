//! The lexer and the evaluator, sharing one cursor over the line.
use vstd::prelude::*;
use vstd::string::*;
use crate::model::{
    digit_run_len, eval, eval_token, is_digit, lemma_digit_run_len_exact, lemma_lex_number_digits,
    lemma_lex_shrinks, lex, Lexed,
};
use crate::token::{EvalError, Operation, Token, TokenType};

verus! {

/// The characters a token was read from; none for `Eof`.
pub open spec fn text_of(t: Token) -> Seq<char> {
    match t.value {
        Some(v) => v@,
        None => Seq::empty(),
    }
}

/// The state of one evaluation: the line, a cursor into it with the
/// character under it, and the token the parser is looking at.
pub struct Interpreter {
    pub text: String,
    /// The number of characters of `text`.
    pub len: usize,
    pub pos: usize,
    pub current_token: Option<Token>,
    pub current_char: Option<char>,
}

/// Exec counterpart of `is_digit`.
fn is_decimal_digit(c: char) -> (r: bool)
    ensures
        r == is_digit(c),
{
    '0' <= c && c <= '9'
}

impl Interpreter {
    /// The cursor lies within the line, and the cached character is the one
    /// under it.
    pub open spec fn wf(&self) -> bool {
        &&& self.len == self.text@.len()
        &&& self.pos <= self.len
        &&& self.current_char == if self.pos < self.len {
            Some(self.text@[self.pos as int])
        } else {
            None::<char>
        }
    }

    /// The text the lexer has not read yet.
    pub open spec fn rest(&self) -> Seq<char> {
        self.text@.skip(self.pos as int)
    }

    pub fn new(text: String) -> (r: Interpreter)
        ensures
            r.wf(),
            r.text@ == text@,
            r.pos == 0,
            r.current_token is None,
    {
        let len = text.as_str().unicode_len();
        let current_char = if len > 0 {
            Some(text.as_str().get_char(0))
        } else {
            None
        };
        Interpreter { text, len, pos: 0, current_token: None, current_char }
    }

    /// Moves the cursor one character forward.
    pub fn advance(&mut self)
        requires
            old(self).wf(),
            old(self).current_char is Some,
        ensures
            final(self).wf(),
            final(self).text == old(self).text,
            final(self).pos == old(self).pos + 1,
            final(self).current_token == old(self).current_token,
            final(self).rest() == old(self).rest().drop_first(),
    {
        self.pos = self.pos + 1;
        if self.pos < self.len {
            self.current_char = Some(self.text.as_str().get_char(self.pos));
        } else {
            self.current_char = None;
        }
        assert(self.rest() =~= old(self).rest().drop_first());
    }

    /// Moves the cursor past the spaces under it.
    pub fn skip_whitespace(&mut self)
        requires
            old(self).wf(),
        ensures
            final(self).wf(),
            final(self).text == old(self).text,
            final(self).current_token == old(self).current_token,
            old(self).pos <= final(self).pos,
            forall|i: int|
                old(self).pos <= i < final(self).pos ==> #[trigger] old(self).text@[i] == ' ',
            final(self).current_char != Some(' '),
            old(self).current_char == Some(' ') ==> old(self).pos < final(self).pos,
            lex(final(self).rest()) == lex(old(self).rest()),
    {
        while self.current_char == Some(' ')
            invariant
                self.wf(),
                self.text == old(self).text,
                self.current_token == old(self).current_token,
                old(self).pos <= self.pos,
                forall|i: int| old(self).pos <= i < self.pos ==> #[trigger] self.text@[i] == ' ',
                lex(self.rest()) == lex(old(self).rest()),
            decreases self.len - self.pos,
        {
            assert(self.rest()[0] == ' ');
            self.advance();
        }
    }

    /// Reads the run of decimal digits under the cursor.
    pub fn number(&mut self) -> (r: String)
        requires
            old(self).wf(),
        ensures
            final(self).wf(),
            final(self).text == old(self).text,
            final(self).current_token == old(self).current_token,
            r@ == old(self).rest().take(digit_run_len(old(self).rest()) as int),
            final(self).rest() == old(self).rest().skip(digit_run_len(old(self).rest()) as int),
            final(self).pos == old(self).pos + digit_run_len(old(self).rest()),
    {
        let start = self.pos;
        loop
            invariant
                self.wf(),
                self.text == old(self).text,
                self.current_token == old(self).current_token,
                start == old(self).pos <= self.pos,
                forall|i: int| start <= i < self.pos ==> is_digit(#[trigger] self.text@[i]),
            ensures
                self.wf(),
                self.text == old(self).text,
                self.current_token == old(self).current_token,
                start == old(self).pos <= self.pos,
                forall|i: int| start <= i < self.pos ==> is_digit(#[trigger] self.text@[i]),
                self.pos == self.len || !is_digit(self.text@[self.pos as int]),
            decreases self.len - self.pos,
        {
            match self.current_char {
                Some(c) => {
                    if !is_decimal_digit(c) {
                        break;
                    }
                },
                None => {
                    break;
                },
            }
            self.advance();
        }
        let ghost s = old(self).rest();
        let ghost k = self.pos - start;
        proof {
            assert forall|i: int| 0 <= i < k implies is_digit(#[trigger] s[i]) by {
                assert(s[i] == self.text@[start + i]);
            }
            if k < s.len() {
                assert(s[k] == self.text@[self.pos as int]);
            }
            lemma_digit_run_len_exact(s, k);
        }
        let r = String::from_str(self.text.as_str().substring_char(start, self.pos));
        assert(r@ =~= s.take(k));
        assert(self.rest() =~= s.skip(k));
        r
    }

    /// Reads the next token: spaces are skipped, a number is the whole run of
    /// digits under the cursor, and past the end comes `Eof`.
    pub fn get_next_token(&mut self) -> (r: Result<Token, EvalError>)
        requires
            old(self).wf(),
        ensures
            final(self).wf(),
            final(self).text == old(self).text,
            final(self).current_token == old(self).current_token,
            old(self).pos <= final(self).pos,
            match lex(old(self).rest()) {
                Lexed::Error => r == Err::<Token, EvalError>(EvalError::LexicalError),
                Lexed::Token(ty, text, after) => r matches Ok(t) && t.token_type == ty && text_of(t)
                    == text && (t.value is None <==> ty == TokenType::Eof) && final(self).rest()
                    == after,
            },
    {
        loop
            invariant
                self.wf(),
                self.text == old(self).text,
                self.current_token == old(self).current_token,
                old(self).pos <= self.pos,
                lex(self.rest()) == lex(old(self).rest()),
            decreases self.len - self.pos,
        {
            let ghost s = self.rest();
            match self.current_char {
                None => {
                    assert(s.len() == 0);
                    return Ok(Token::new(TokenType::Eof, None));
                },
                Some(c) => {
                    assert(s[0] == c);
                    if is_decimal_digit(c) {
                        let digits = self.number();
                        return Ok(Token::new(TokenType::Number, Some(digits)));
                    } else if c == ' ' {
                        self.skip_whitespace();
                    } else if c == '+' {
                        self.advance();
                        let op = String::from_str("+");
                        proof {
                            reveal_strlit("+");
                        }
                        assert(op@ =~= seq!['+']);
                        return Ok(Token::new(TokenType::Plus, Some(op)));
                    } else if c == '-' {
                        self.advance();
                        let op = String::from_str("-");
                        proof {
                            reveal_strlit("-");
                        }
                        assert(op@ =~= seq!['-']);
                        return Ok(Token::new(TokenType::Minus, Some(op)));
                    } else {
                        return Err(EvalError::LexicalError);
                    }
                },
            }
        }
    }

    /// Moves to the next token, provided the current one is of the kind
    /// expected.
    pub fn eat(&mut self, token_type: TokenType) -> (r: Result<(), EvalError>)
        requires
            old(self).wf(),
        ensures
            final(self).wf(),
            final(self).text == old(self).text,
            match old(self).current_token {
                None => r == Err::<(), EvalError>(EvalError::GrammarError) && *final(self) == *old(
                    self,
                ),
                Some(t) => if t.token_type != token_type {
                    r == Err::<(), EvalError>(EvalError::GrammarError) && *final(self) == *old(self)
                } else {
                    match lex(old(self).rest()) {
                        Lexed::Error => r == Err::<(), EvalError>(EvalError::LexicalError),
                        Lexed::Token(ty, text, after) => {
                            &&& r is Ok
                            &&& final(self).current_token matches Some(n) && n.token_type == ty
                                && text_of(n) == text && (n.value is None <==> ty
                                == TokenType::Eof)
                            &&& final(self).rest() == after
                        },
                    }
                },
            },
    {
        let matches_kind = match &self.current_token {
            Some(t) => t.token_type == token_type,
            None => false,
        };
        if !matches_kind {
            return Err(EvalError::GrammarError);
        }
        let next = self.get_next_token()?;
        self.current_token = Some(next);
        Ok(())
    }

    /// The whole line has been read, and the current token is `Eof`.
    pub open spec fn finished(&self) -> bool {
        &&& self.pos == self.len
        &&& self.current_token matches Some(t) && t.token_type == TokenType::Eof && t.value is None
    }

    /// What is left to read: the unread text, and one more while the
    /// current token is not `Eof`.
    pub open spec fn progress(&self) -> int {
        self.rest().len() + match self.current_token {
            Some(t) => if t.token_type == TokenType::Eof {
                0int
            } else {
                1int
            },
            None => 0int,
        }
    }

    /// Evaluates the line from the cursor on: a number, then any sequence
    /// of operators and numbers, folded from left to right.
    pub fn expr(&mut self) -> (r: Result<i64, EvalError>)
        requires
            old(self).wf(),
        ensures
            final(self).wf(),
            final(self).text == old(self).text,
            evaluates_to(old(self).rest(), r),
            r is Ok ==> final(self).finished(),
    {
        proof {
            lemma_lex_number_digits(self.rest());
        }
        let first = self.get_next_token()?;
        if first.token_type != TokenType::Number {
            return Err(EvalError::GrammarError);
        }
        let mut result = first.value_to_number()?;
        self.current_token = Some(first);
        proof {
            lemma_lex_number_digits(self.rest());
            lemma_lex_shrinks(self.rest());
        }
        self.eat(TokenType::Number)?;
        let mut op: Option<Operation> = None;
        let mut expecting = false;
        loop
            invariant
                self.wf(),
                self.text == old(self).text,
                self.current_token matches Some(cur) && (cur.value is None <==> cur.token_type
                    == TokenType::Eof) && (cur.token_type == TokenType::Eof ==> self.rest().len()
                    == 0) && eval(old(self).rest()) == eval_token(
                    cur.token_type,
                    text_of(cur),
                    self.rest(),
                    result as int,
                    op,
                    expecting,
                ) && (cur.token_type == TokenType::Number ==> cur.has_digits()),
            decreases self.progress(),
        {
            let ty = match &self.current_token {
                Some(t) => t.token_type,
                None => TokenType::Eof,
            };
            if ty == TokenType::Eof {
                if expecting {
                    return Err(EvalError::GrammarError);
                }
                return Ok(result);
            }
            proof {
                lemma_lex_number_digits(self.rest());
                lemma_lex_shrinks(self.rest());
            }
            if ty == TokenType::Number {
                if !expecting {
                    return Err(EvalError::GrammarError);
                }
                let o = match op {
                    Some(o) => o,
                    None => {
                        return Err(EvalError::GrammarError);
                    },
                };
                let n = match &self.current_token {
                    Some(t) => t.value_to_number()?,
                    None => {
                        return Err(EvalError::GrammarError);
                    },
                };
                let next = match o {
                    Operation::Plus => result.checked_add(n),
                    Operation::Minus => result.checked_sub(n),
                };
                result = match next {
                    Some(v) => v,
                    None => {
                        return Err(EvalError::Overflow);
                    },
                };
                self.eat(TokenType::Number)?;
                expecting = false;
            } else if expecting {
                return Err(EvalError::GrammarError);
            } else if ty == TokenType::Plus {
                op = Some(Operation::Plus);
                self.eat(TokenType::Plus)?;
                expecting = true;
            } else {
                op = Some(Operation::Minus);
                self.eat(TokenType::Minus)?;
                expecting = true;
            }
        }
    }
}

/// The outcome of evaluating the line `s`, as an `i64` or an error.
pub open spec fn evaluates_to(s: Seq<char>, r: Result<i64, EvalError>) -> bool {
    match r {
        Ok(v) => eval(s) == Ok::<int, EvalError>(v as int),
        Err(e) => eval(s) == Err::<int, EvalError>(e),
    }
}

/// Evaluates one line with a fresh interpreter.
pub fn evaluate(text: String) -> (r: Result<i64, EvalError>)
    ensures
        evaluates_to(text@, r),
{
    let mut interpreter = Interpreter::new(text);
    assert(interpreter.rest() =~= interpreter.text@);
    interpreter.expr()
}

} // verus!
