//! What holds of every evaluation.
use vstd::prelude::*;
use crate::interpreter::evaluates_to;
use crate::model::{
    all_digits, apply, digit_run_len, digits_value, eval, eval_rest, fits_i64, is_digit,
    lemma_digit_run_digits, lemma_digit_run_len_bound, lemma_digit_run_len_exact, lemma_lex_shrinks,
    lex, Lexed,
};
use crate::token::{EvalError, Operation, TokenType};

verus! {

/// `n` spaces.
pub open spec fn spaces(n: nat) -> Seq<char> {
    Seq::new(n, |i: int| ' ')
}

pub open spec fn op_char(op: Operation) -> char {
    match op {
        Operation::Plus => '+',
        Operation::Minus => '-',
    }
}

/// A well-formed line: `nums.len() == ops.len() + 1` digit runs, with a run
/// of spaces before each token and one after the last.
pub open spec fn valid_parts(nums: Seq<Seq<char>>, ops: Seq<Operation>, gaps: Seq<nat>) -> bool {
    &&& nums.len() == ops.len() + 1
    &&& gaps.len() == 2 * ops.len() + 2
    &&& forall|j: int| 0 <= j < nums.len() ==> #[trigger] nums[j].len() > 0 && all_digits(nums[j])
}

/// The text of the line from the `j`-th operator on.
pub open spec fn render_tail(nums: Seq<Seq<char>>, ops: Seq<Operation>, gaps: Seq<nat>, j: int) -> Seq<
    char,
>
    decreases ops.len() - j,
{
    if j >= ops.len() {
        spaces(gaps[2 * ops.len() + 1int])
    } else {
        spaces(gaps[2 * j + 1]) + (seq![op_char(ops[j])] + (spaces(gaps[2 * j + 2]) + (
        nums[j + 1] + render_tail(nums, ops, gaps, j + 1))))
    }
}

/// The text of the line `N0 op0 N1 op1 ... Nk` with the given spaces.
pub open spec fn render(nums: Seq<Seq<char>>, ops: Seq<Operation>, gaps: Seq<nat>) -> Seq<char> {
    spaces(gaps[0]) + (nums[0] + render_tail(nums, ops, gaps, 0))
}

/// The left-to-right fold of the first `j + 1` numbers.
pub open spec fn fold_upto(nums: Seq<Seq<char>>, ops: Seq<Operation>, j: int) -> int
    decreases j,
{
    if j <= 0 {
        digits_value(nums[0])
    } else {
        apply(ops[j - 1], fold_upto(nums, ops, j - 1), digits_value(nums[j]))
    }
}

/// Every number and every partial result fits in an `i64`.
pub open spec fn fold_fits(nums: Seq<Seq<char>>, ops: Seq<Operation>) -> bool {
    &&& forall|j: int| 0 <= j < nums.len() ==> fits_i64(#[trigger] digits_value(nums[j]))
    &&& forall|j: int| 0 <= j < nums.len() ==> fits_i64(#[trigger] fold_upto(nums, ops, j))
}

proof fn lemma_lex_spaces(n: nat, t: Seq<char>)
    ensures
        lex(spaces(n) + t) == lex(t),
    decreases n,
{
    if n > 0 {
        let s = spaces(n) + t;
        assert(s[0] == ' ');
        assert(s.drop_first() =~= spaces((n - 1) as nat) + t);
        lemma_lex_spaces((n - 1) as nat, t);
    }
}

proof fn lemma_lex_number(d: Seq<char>, t: Seq<char>)
    requires
        d.len() > 0,
        all_digits(d),
        t.len() == 0 || !is_digit(t[0]),
    ensures
        lex(d + t) == Lexed::Token(TokenType::Number, d, t),
{
    let s = d + t;
    assert(is_digit(s[0]));
    assert forall|i: int| 0 <= i < d.len() implies is_digit(#[trigger] s[i]) by {
        assert(s[i] == d[i]);
    }
    if t.len() > 0 {
        assert(s[d.len() as int] == t[0]);
    }
    lemma_digit_run_len_exact(s, d.len() as int);
    assert(s.take(d.len() as int) =~= d);
    assert(s.skip(d.len() as int) =~= t);
}

proof fn lemma_lex_op(op: Operation, t: Seq<char>)
    ensures
        lex(seq![op_char(op)] + t) == Lexed::Token(
            match op {
                Operation::Plus => TokenType::Plus,
                Operation::Minus => TokenType::Minus,
            },
            seq![op_char(op)],
            t,
        ),
{
    let s = seq![op_char(op)] + t;
    assert(s[0] == op_char(op));
    assert(s.drop_first() =~= t);
}

proof fn lemma_tail_start(nums: Seq<Seq<char>>, ops: Seq<Operation>, gaps: Seq<nat>, j: int)
    requires
        valid_parts(nums, ops, gaps),
        0 <= j <= ops.len(),
    ensures
        render_tail(nums, ops, gaps, j).len() == 0 || !is_digit(render_tail(nums, ops, gaps, j)[0]),
{
    let t = render_tail(nums, ops, gaps, j);
    if j < ops.len() {
        let g = gaps[2 * j + 1];
        let rest = seq![op_char(ops[j])] + (spaces(gaps[2 * j + 2]) + (nums[j + 1]
            + render_tail(nums, ops, gaps, j + 1)));
        if g > 0 {
            assert(t[0] == ' ');
        } else {
            assert(spaces(g) + rest =~= rest);
            assert(t[0] == op_char(ops[j]));
        }
    } else if t.len() > 0 {
        assert(t[0] == ' ');
    }
}

proof fn lemma_eval_tail(
    nums: Seq<Seq<char>>,
    ops: Seq<Operation>,
    gaps: Seq<nat>,
    j: int,
    op: Option<Operation>,
)
    requires
        valid_parts(nums, ops, gaps),
        fold_fits(nums, ops),
        0 <= j <= ops.len(),
    ensures
        eval_rest(render_tail(nums, ops, gaps, j), fold_upto(nums, ops, j), op, false) == Ok::<
            int,
            EvalError,
        >(fold_upto(nums, ops, ops.len() as int)),
    decreases ops.len() - j,
{
    let acc = fold_upto(nums, ops, j);
    if j >= ops.len() {
        lemma_lex_spaces(gaps[2 * ops.len() + 1int], Seq::empty());
        assert(spaces(gaps[2 * ops.len() + 1int]) + Seq::<char>::empty() =~= spaces(
            gaps[2 * ops.len() + 1int],
        ));
    } else {
        let o = ops[j];
        let d = nums[j + 1];
        let next = render_tail(nums, ops, gaps, j + 1);
        let after_op = spaces(gaps[2 * j + 2]) + (d + next);
        assert(d.len() > 0 && all_digits(d));
        lemma_lex_spaces(gaps[2 * j + 1], seq![op_char(o)] + after_op);
        lemma_lex_op(o, after_op);
        lemma_lex_spaces(gaps[2 * j + 2], d + next);
        lemma_tail_start(nums, ops, gaps, j + 1);
        lemma_lex_number(d, next);
        assert(fits_i64(digits_value(nums[j + 1])));
        assert(fits_i64(fold_upto(nums, ops, j + 1)));
        let r0 = render_tail(nums, ops, gaps, j);
        let ty = if o == Operation::Plus {
            TokenType::Plus
        } else {
            TokenType::Minus
        };
        assert(lex(r0) == Lexed::Token(ty, seq![op_char(o)], after_op));
        assert(eval_rest(r0, acc, op, false) == eval_rest(after_op, acc, Some(o), true));
        assert(lex(after_op) == Lexed::Token(TokenType::Number, d, next));
        assert(fold_upto(nums, ops, j + 1) == apply(o, acc, digits_value(d)));
        assert(eval_rest(after_op, acc, Some(o), true) == eval_rest(
            next,
            fold_upto(nums, ops, j + 1),
            Some(o),
            false,
        ));
        lemma_eval_tail(nums, ops, gaps, j + 1, Some(o));
    }
}

/// A line of numbers joined by `+` and `-`, with any spaces between the
/// tokens, evaluates to the left-to-right fold of its numbers, whenever
/// every number and every partial result fits in an `i64`.
pub proof fn law_left_to_right_fold(nums: Seq<Seq<char>>, ops: Seq<Operation>, gaps: Seq<nat>)
    requires
        valid_parts(nums, ops, gaps),
        fold_fits(nums, ops),
    ensures
        eval(render(nums, ops, gaps)) == Ok::<int, EvalError>(fold_upto(nums, ops, ops.len() as int)),
{
    let d = nums[0];
    let tail = render_tail(nums, ops, gaps, 0);
    assert(d.len() > 0 && all_digits(d));
    lemma_lex_spaces(gaps[0], d + tail);
    lemma_tail_start(nums, ops, gaps, 0);
    lemma_lex_number(d, tail);
    assert(fits_i64(digits_value(nums[0])));
    lemma_eval_tail(nums, ops, gaps, 0, None);
}

/// Two evaluations of the same line give the same outcome: nothing but the
/// line decides it.
pub proof fn law_same_line_same_result(s: Seq<char>, r1: Result<i64, EvalError>, r2: Result<i64, EvalError>)
    requires
        evaluates_to(s, r1),
        evaluates_to(s, r2),
    ensures
        r1 == r2,
{
}

/// `s` with every space removed.
pub open spec fn strip_spaces(s: Seq<char>) -> Seq<char>
    decreases s.len(),
{
    if s.len() == 0 {
        s
    } else if s[0] == ' ' {
        strip_spaces(s.drop_first())
    } else {
        seq![s[0]] + strip_spaces(s.drop_first())
    }
}

/// `s` without its leading spaces.
pub open spec fn trim_start(s: Seq<char>) -> Seq<char>
    decreases s.len(),
{
    if s.len() > 0 && s[0] == ' ' {
        trim_start(s.drop_first())
    } else {
        s
    }
}

pub open spec fn starts_with_digit(s: Seq<char>) -> bool {
    s.len() > 0 && is_digit(s[0])
}

/// No run of spaces in `s` has a digit on both sides, so that removing the
/// spaces joins no two numbers.
pub open spec fn no_split_number(s: Seq<char>) -> bool {
    forall|i: int|
        0 <= i && i + 1 < s.len() && is_digit(#[trigger] s[i]) && s[i + 1] == ' '
            ==> !starts_with_digit(trim_start(s.skip(i + 1)))
}

proof fn lemma_strip_first(s: Seq<char>)
    ensures
        strip_spaces(s).len() > 0 ==> trim_start(s).len() > 0 && strip_spaces(s)[0] == trim_start(
            s,
        )[0],
    decreases s.len(),
{
    if s.len() > 0 && s[0] == ' ' {
        lemma_strip_first(s.drop_first());
    }
}

proof fn lemma_strip_digits(d: Seq<char>, r: Seq<char>)
    requires
        all_digits(d),
    ensures
        strip_spaces(d + r) == d + strip_spaces(r),
    decreases d.len(),
{
    if d.len() == 0 {
        assert(d + r =~= r);
        assert(d + strip_spaces(r) =~= strip_spaces(r));
    } else {
        let s = d + r;
        assert(is_digit(d[0]));
        assert(s[0] == d[0]);
        assert(s.drop_first() =~= d.drop_first() + r);
        assert forall|i: int| 0 <= i < d.drop_first().len() implies is_digit(
            #[trigger] d.drop_first()[i],
        ) by {
            assert(d.drop_first()[i] == d[i + 1]);
        }
        lemma_strip_digits(d.drop_first(), r);
        assert(seq![d[0]] + (d.drop_first() + strip_spaces(r)) =~= d + strip_spaces(r));
    }
}

proof fn lemma_no_split_suffix(s: Seq<char>, k: int)
    requires
        no_split_number(s),
        0 <= k <= s.len(),
    ensures
        no_split_number(s.skip(k)),
{
    let t = s.skip(k);
    assert forall|i: int|
        0 <= i && i + 1 < t.len() && is_digit(#[trigger] t[i]) && t[i + 1] == ' ' implies !starts_with_digit(
        trim_start(t.skip(i + 1)),
    ) by {
        assert(t[i] == s[k + i]);
        assert(t[i + 1] == s[k + i + 1]);
        assert(t.skip(i + 1) =~= s.skip(k + i + 1));
    }
}

proof fn lemma_digit_run_maximal(s: Seq<char>)
    ensures
        digit_run_len(s) < s.len() ==> !is_digit(s[digit_run_len(s) as int]),
    decreases s.len(),
{
    if s.len() > 0 && is_digit(s[0]) {
        let t = s.drop_first();
        lemma_digit_run_maximal(t);
        if digit_run_len(s) < s.len() {
            assert(s[digit_run_len(s) as int] == t[digit_run_len(t) as int]);
        }
    }
}

/// Removing the spaces leaves the first token and its text as they are,
/// and the text behind it loses its spaces.
proof fn lemma_lex_strip(s: Seq<char>)
    requires
        no_split_number(s),
    ensures
        match lex(s) {
            Lexed::Error => lex(strip_spaces(s)) is Error,
            Lexed::Token(ty, text, after) => lex(strip_spaces(s)) == Lexed::Token(
                ty,
                text,
                strip_spaces(after),
            ) && no_split_number(after),
        },
    decreases s.len(),
{
    if s.len() == 0 {
    } else if s[0] == ' ' {
        lemma_no_split_suffix(s, 1);
        assert(s.skip(1) =~= s.drop_first());
        lemma_lex_strip(s.drop_first());
    } else {
        let st = strip_spaces(s);
        let tail = strip_spaces(s.drop_first());
        assert(st == seq![s[0]] + tail);
        assert(st[0] == s[0]);
        assert(st.drop_first() =~= tail);
        if is_digit(s[0]) {
            let n = digit_run_len(s) as int;
            let d = s.take(n);
            let r = s.skip(n);
            lemma_digit_run_len_bound(s);
            lemma_digit_run_digits(s);
            lemma_digit_run_maximal(s);
            assert(s =~= d + r);
            assert forall|i: int| 0 <= i < d.len() implies is_digit(#[trigger] d[i]) by {
                assert(d[i] == s[i]);
            }
            lemma_strip_digits(d, r);
            lemma_strip_first(r);
            if r.len() > 0 {
                assert(r[0] == s[n]);
                if r[0] == ' ' {
                    assert(is_digit(s[n - 1]));
                    assert(s[n - 1 + 1] == ' ');
                    assert(s.skip(n - 1 + 1) =~= r);
                } else {
                    assert(strip_spaces(r)[0] == r[0]);
                }
            }
            lemma_lex_number(d, strip_spaces(r));
            lemma_no_split_suffix(s, n);
        } else if s[0] == '+' {
            lemma_lex_op(Operation::Plus, tail);
            lemma_no_split_suffix(s, 1);
            assert(s.skip(1) =~= s.drop_first());
        } else if s[0] == '-' {
            lemma_lex_op(Operation::Minus, tail);
            lemma_no_split_suffix(s, 1);
            assert(s.skip(1) =~= s.drop_first());
        }
    }
}

proof fn lemma_eval_rest_strip(s: Seq<char>, acc: int, op: Option<Operation>, expecting: bool)
    requires
        no_split_number(s),
    ensures
        eval_rest(s, acc, op, expecting) == eval_rest(strip_spaces(s), acc, op, expecting),
    decreases s.len(),
{
    lemma_lex_strip(s);
    lemma_lex_shrinks(s);
    if let Lexed::Token(ty, text, after) = lex(s) {
        if ty == TokenType::Number {
            if let Some(o) = op {
                lemma_eval_rest_strip(after, apply(o, acc, digits_value(text)), op, false);
            }
        } else if ty == TokenType::Plus {
            lemma_eval_rest_strip(after, acc, Some(Operation::Plus), true);
        } else if ty == TokenType::Minus {
            lemma_eval_rest_strip(after, acc, Some(Operation::Minus), true);
        }
    }
}

/// Spaces do not change the outcome of a line, errors included: two lines
/// that are the same once their spaces are removed evaluate alike, as long
/// as neither has spaces between two digits.
pub proof fn law_spaces_do_not_matter(t1: Seq<char>, t2: Seq<char>)
    requires
        strip_spaces(t1) == strip_spaces(t2),
        no_split_number(t1),
        no_split_number(t2),
    ensures
        eval(t1) == eval(t2),
{
    lemma_lex_strip(t1);
    lemma_lex_strip(t2);
    if let Lexed::Token(ty, text, after) = lex(t1) {
        lemma_eval_rest_strip(after, digits_value(text), None, false);
    }
    if let Lexed::Token(ty, text, after) = lex(t2) {
        lemma_eval_rest_strip(after, digits_value(text), None, false);
    }
}

} // verus!
