//! The meaning of a line, stated over sequences of characters.
use vstd::prelude::*;
use crate::token::{EvalError, Operation, TokenType};

verus! {

pub open spec fn is_digit(c: char) -> bool {
    '0' <= c && c <= '9'
}

pub open spec fn digit_value(c: char) -> int {
    c as int - '0' as int
}

/// The number of decimal digits at the start of `s`.
pub open spec fn digit_run_len(s: Seq<char>) -> nat
    decreases s.len(),
{
    if s.len() > 0 && is_digit(s[0]) {
        1 + digit_run_len(s.drop_first())
    } else {
        0
    }
}

/// The value of a string of decimal digits, most significant digit first.
pub open spec fn digits_value(s: Seq<char>) -> int
    decreases s.len(),
{
    if s.len() == 0 {
        0
    } else {
        digits_value(s.drop_last()) * 10 + digit_value(s.last())
    }
}

pub open spec fn fits_i64(v: int) -> bool {
    i64::MIN <= v && v <= i64::MAX
}

pub open spec fn apply(op: Operation, acc: int, n: int) -> int {
    match op {
        Operation::Plus => acc + n,
        Operation::Minus => acc - n,
    }
}

pub open spec fn all_digits(s: Seq<char>) -> bool {
    forall|i: int| 0 <= i < s.len() ==> is_digit(#[trigger] s[i])
}

pub proof fn lemma_digits_value_step(s: Seq<char>, i: int)
    requires
        0 <= i < s.len(),
    ensures
        digits_value(s.take(i + 1)) == digits_value(s.take(i)) * 10 + digit_value(s[i]),
{
    assert(s.take(i + 1).drop_last() =~= s.take(i));
}

pub proof fn lemma_digits_value_nonneg(s: Seq<char>)
    requires
        all_digits(s),
    ensures
        digits_value(s) >= 0,
    decreases s.len(),
{
    if s.len() > 0 {
        assert(is_digit(s[s.len() - 1]));
        lemma_digits_value_nonneg(s.drop_last());
    }
}

/// The value of a prefix of digits is at most that of the whole.
pub proof fn lemma_digits_value_prefix(s: Seq<char>, i: int)
    requires
        all_digits(s),
        0 <= i <= s.len(),
    ensures
        0 <= digits_value(s.take(i)) <= digits_value(s),
    decreases s.len() - i,
{
    lemma_digits_value_nonneg(s.take(i));
    if i == s.len() {
        assert(s.take(i) =~= s);
    } else {
        lemma_digits_value_prefix(s, i + 1);
        lemma_digits_value_step(s, i);
        assert(is_digit(s[i]));
    }
}

/// What the lexer reads at the start of some text.
pub enum Lexed {
    /// The first character that is not a space starts no token.
    Error,
    /// A token of the given kind, the characters it was read from, and the
    /// text after it.
    Token(TokenType, Seq<char>, Seq<char>),
}

/// The first token of `s`: spaces are skipped, a number is the whole run
/// of digits, and the end of the text is `Eof`.
pub open spec fn lex(s: Seq<char>) -> Lexed
    decreases s.len(),
{
    if s.len() == 0 {
        Lexed::Token(TokenType::Eof, Seq::empty(), s)
    } else if s[0] == ' ' {
        lex(s.drop_first())
    } else if is_digit(s[0]) {
        let n = digit_run_len(s) as int;
        Lexed::Token(TokenType::Number, s.take(n), s.skip(n))
    } else if s[0] == '+' {
        Lexed::Token(TokenType::Plus, seq!['+'], s.drop_first())
    } else if s[0] == '-' {
        Lexed::Token(TokenType::Minus, seq!['-'], s.drop_first())
    } else {
        Lexed::Error
    }
}

pub proof fn lemma_digit_run_len_bound(s: Seq<char>)
    ensures
        digit_run_len(s) <= s.len(),
        s.len() > 0 && is_digit(s[0]) ==> digit_run_len(s) >= 1,
    decreases s.len(),
{
    if s.len() > 0 && is_digit(s[0]) {
        lemma_digit_run_len_bound(s.drop_first());
    }
}

/// The lexer never grows the text, shrinks it by every token but `Eof`,
/// and leaves nothing behind `Eof`.
pub proof fn lemma_lex_shrinks(s: Seq<char>)
    ensures
        lex(s) matches Lexed::Token(ty, _, rest) ==> rest.len() <= s.len() && (ty != TokenType::Eof
            ==> rest.len() < s.len()) && (ty == TokenType::Eof ==> rest.len() == 0),
    decreases s.len(),
{
    if s.len() > 0 {
        if s[0] == ' ' {
            lemma_lex_shrinks(s.drop_first());
        } else if is_digit(s[0]) {
            lemma_digit_run_len_bound(s);
        }
    }
}

/// The digit run at the start of `s` is exactly its first `k` characters
/// when those are digits and the next one, if any, is not.
pub proof fn lemma_digit_run_len_exact(s: Seq<char>, k: int)
    requires
        0 <= k <= s.len(),
        forall|i: int| 0 <= i < k ==> is_digit(#[trigger] s[i]),
        k == s.len() || !is_digit(s[k]),
    ensures
        digit_run_len(s) == k,
    decreases k,
{
    if k > 0 {
        let t = s.drop_first();
        assert forall|i: int| 0 <= i < k - 1 implies is_digit(#[trigger] t[i]) by {
            assert(t[i] == s[i + 1]);
        }
        if k < s.len() {
            assert(t[k - 1] == s[k]);
        }
        lemma_digit_run_len_exact(t, k - 1);
    }
}

pub proof fn lemma_digit_run_digits(s: Seq<char>)
    ensures
        forall|i: int| 0 <= i < digit_run_len(s) ==> is_digit(#[trigger] s[i]),
    decreases s.len(),
{
    if s.len() > 0 && is_digit(s[0]) {
        let t = s.drop_first();
        lemma_digit_run_digits(t);
        lemma_digit_run_len_bound(s);
        assert forall|i: int| 0 <= i < digit_run_len(s) implies is_digit(#[trigger] s[i]) by {
            if i > 0 {
                assert(s[i] == t[i - 1]);
            }
        }
    }
}

/// A number token is a non-empty run of digits.
pub proof fn lemma_lex_number_digits(s: Seq<char>)
    ensures
        match lex(s) {
            Lexed::Token(ty, text, _) => ty == TokenType::Number ==> all_digits(text) && text.len()
                > 0,
            Lexed::Error => true,
        },
    decreases s.len(),
{
    if s.len() > 0 {
        if s[0] == ' ' {
            lemma_lex_number_digits(s.drop_first());
        } else if is_digit(s[0]) {
            lemma_digit_run_digits(s);
            lemma_digit_run_len_bound(s);
        }
    }
}

/// The rest of an evaluation: `rest` is the text not yet read, `acc` the
/// running result, `op` the pending operation, and `expecting` whether the
/// last token consumed was an operator, so that a number must follow.
pub open spec fn eval_rest(rest: Seq<char>, acc: int, op: Option<Operation>, expecting: bool) -> Result<
    int,
    EvalError,
>
    decreases 2 * rest.len() + 1,
{
    proof {
        lemma_lex_shrinks(rest);
    }
    match lex(rest) {
        Lexed::Error => Err(EvalError::LexicalError),
        Lexed::Token(ty, text, after) => eval_token(ty, text, after, acc, op, expecting),
    }
}

/// One step of the evaluation loop, on the token of kind `ty` read from
/// `text`, with `after` the text behind it: a number must follow an
/// operator, and an operator a number.
pub open spec fn eval_token(
    ty: TokenType,
    text: Seq<char>,
    after: Seq<char>,
    acc: int,
    op: Option<Operation>,
    expecting: bool,
) -> Result<int, EvalError>
    decreases 2 * after.len() + if ty == TokenType::Eof {
        0int
    } else {
        2int
    },
{
    if ty == TokenType::Eof {
        if expecting {
            Err(EvalError::GrammarError)
        } else {
            Ok(acc)
        }
    } else if ty == TokenType::Number {
        if !expecting {
            Err(EvalError::GrammarError)
        } else {
            match op {
                None => Err(EvalError::GrammarError),
                Some(o) => {
                    let n = digits_value(text);
                    let v = apply(o, acc, n);
                    if !fits_i64(n) || !fits_i64(v) {
                        Err(EvalError::Overflow)
                    } else {
                        eval_rest(after, v, op, false)
                    }
                },
            }
        }
    } else if expecting {
        Err(EvalError::GrammarError)
    } else if ty == TokenType::Plus {
        eval_rest(after, acc, Some(Operation::Plus), true)
    } else {
        eval_rest(after, acc, Some(Operation::Minus), true)
    }
}

/// The value of a whole line: a first number, then the rest of the line.
pub open spec fn eval(s: Seq<char>) -> Result<int, EvalError> {
    match lex(s) {
        Lexed::Error => Err(EvalError::LexicalError),
        Lexed::Token(ty, text, after) => {
            if ty != TokenType::Number {
                Err(EvalError::GrammarError)
            } else if !fits_i64(digits_value(text)) {
                Err(EvalError::Overflow)
            } else {
                eval_rest(after, digits_value(text), None, false)
            }
        },
    }
}

} // verus!
