use vstd::prelude::*;
use vstd::string::*;
use crate::model::{all_digits, digits_value, fits_i64, is_digit, lemma_digits_value_prefix, lemma_digits_value_step};

verus! {

/// The kind of a token handed from the lexer to the parser.
#[derive(PartialEq, Eq, Structural, Copy, Clone, Debug)]
pub enum TokenType {
    Number,
    Plus,
    Minus,
    Eof,
}

/// The pending operation of the evaluator.
#[derive(PartialEq, Eq, Structural, Copy, Clone, Debug)]
pub enum Operation {
    Plus,
    Minus,
}

/// A token: its kind, and the text it was read from (absent at end of input).
#[derive(Debug)]
pub struct Token {
    pub token_type: TokenType,
    pub value: Option<String>,
}

impl Token {
    pub fn new(token_type: TokenType, value: Option<String>) -> (r: Token)
        ensures
            r.token_type == token_type,
            r.value == value,
    {
        Token { token_type, value }
    }

    /// The token was read from a string of decimal digits.
    pub open spec fn has_digits(&self) -> bool {
        self.value matches Some(v) && all_digits(v@)
    }

    /// The value of the digits the token was read from.
    pub fn value_to_number(&self) -> (r: Result<i64, EvalError>)
        requires
            self.has_digits(),
        ensures
            match self.value {
                Some(v) => r == if fits_i64(digits_value(v@)) {
                    Ok::<i64, EvalError>(digits_value(v@) as i64)
                } else {
                    Err(EvalError::Overflow)
                },
                None => false,
            },
    {
        let v = match &self.value {
            Some(v) => v.as_str(),
            None => {
                return Err(EvalError::GrammarError);
            },
        };
        let n = v.unicode_len();
        let mut acc: i64 = 0;
        let mut i: usize = 0;
        while i < n
            invariant
                self.value matches Some(w) && w@ == v@,
                all_digits(v@),
                n == v@.len(),
                i <= n,
                acc == digits_value(v@.take(i as int)),
            decreases n - i,
        {
            let c = v.get_char(i);
            proof {
                lemma_digits_value_step(v@, i as int);
                lemma_digits_value_prefix(v@, i as int + 1);
                assert(is_digit(v@[i as int]));
            }
            let d = (c as u32 - '0' as u32) as i64;
            let next = match acc.checked_mul(10) {
                Some(m) => m.checked_add(d),
                None => None,
            };
            match next {
                Some(x) => {
                    acc = x;
                },
                None => {
                    return Err(EvalError::Overflow);
                },
            }
            i = i + 1;
        }
        assert(v@.take(n as int) =~= v@);
        Ok(acc)
    }
}

} // verus!

verus! {

/// Why a line could not be evaluated.
#[derive(PartialEq, Eq, Structural, Copy, Clone, Debug)]
pub enum EvalError {
    /// A character that is neither a digit, a space, `+` nor `-`.
    LexicalError,
    /// A token stream that does not follow `NUMBER ((PLUS|MINUS) NUMBER)*`.
    GrammarError,
    /// A number or an intermediate result outside the range of `i64`.
    Overflow,
}

} // verus!
