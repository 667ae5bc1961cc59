//! Tokens and the specification of tokenizing.
//!
//! Tokenizing consumes the whole input: whitespace is skipped, each symbol
//! becomes its one-character token, a maximal digit run becomes one number
//! token, and the first character that fits none of these fails the whole
//! run with a message naming it. A digit run whose value does not fit a
//! signed 64-bit integer fails as well.

use vstd::prelude::*;

verus! {

/// One lexical unit of the input.
#[derive(Debug, Clone, Copy, PartialEq, Eq, Structural)]
pub enum Token {
    Number(i64),
    Plus,
    Minus,
    Times,
    Divide,
    Modulo,
    LeftParen,
    RightParen,
}

/// The numeric value of a decimal digit character, `-1` for any other.
pub open spec fn digit_val(c: char) -> int {
    if c == '0' {
        0
    } else if c == '1' {
        1
    } else if c == '2' {
        2
    } else if c == '3' {
        3
    } else if c == '4' {
        4
    } else if c == '5' {
        5
    } else if c == '6' {
        6
    } else if c == '7' {
        7
    } else if c == '8' {
        8
    } else if c == '9' {
        9
    } else {
        -1
    }
}

pub open spec fn is_digit(c: char) -> bool {
    digit_val(c) >= 0
}

/// The whitespace the tokenizer skips.
pub open spec fn is_space(c: char) -> bool {
    c == ' ' || c == '\t' || c == '\n'
}

/// The value of a run of digit characters, most significant first.
pub open spec fn digits_val(s: Seq<char>) -> int
    decreases s.len(),
{
    if s.len() == 0 {
        0
    } else {
        digits_val(s.drop_last()) * 10 + digit_val(s.last())
    }
}

/// Where the maximal run of digits beginning at `i` ends.
pub open spec fn run_end(s: Seq<char>, i: int) -> int
    decreases s.len() - i,
{
    if 0 <= i < s.len() && is_digit(s[i]) {
        run_end(s, i + 1)
    } else {
        i
    }
}

/// The message for an input character outside the alphabet.
pub open spec fn invalid_char_msg(c: char) -> Seq<char> {
    "Invalid character: '"@ + seq![c] + "'"@
}

/// A token put in front of the rest of a tokenizing outcome.
pub open spec fn lex_cons(t: Token, r: Result<Seq<Token>, Seq<char>>) -> Result<
    Seq<Token>,
    Seq<char>,
> {
    match r {
        Ok(ts) => Ok(seq![t] + ts),
        Err(m) => Err(m),
    }
}

/// Tokens already taken, put in front of the rest of an outcome.
pub open spec fn lex_prepend(ts: Seq<Token>, r: Result<Seq<Token>, Seq<char>>) -> Result<
    Seq<Token>,
    Seq<char>,
> {
    match r {
        Ok(rest) => Ok(ts + rest),
        Err(m) => Err(m),
    }
}

/// The tokens of `s` from position `i` on, or the message of the first
/// failure.
pub open spec fn lex_spec(s: Seq<char>, i: int) -> Result<Seq<Token>, Seq<char>>
    decreases s.len() - i,
    via lex_spec_dec
{
    if !(0 <= i < s.len()) {
        Ok(Seq::empty())
    } else {
        let c = s[i];
        if is_space(c) {
            lex_spec(s, i + 1)
        } else if c == '+' {
            lex_cons(Token::Plus, lex_spec(s, i + 1))
        } else if c == '-' {
            lex_cons(Token::Minus, lex_spec(s, i + 1))
        } else if c == '*' {
            lex_cons(Token::Times, lex_spec(s, i + 1))
        } else if c == '/' {
            lex_cons(Token::Divide, lex_spec(s, i + 1))
        } else if c == '%' {
            lex_cons(Token::Modulo, lex_spec(s, i + 1))
        } else if c == '(' {
            lex_cons(Token::LeftParen, lex_spec(s, i + 1))
        } else if c == ')' {
            lex_cons(Token::RightParen, lex_spec(s, i + 1))
        } else if is_digit(c) {
            let j = run_end(s, i);
            let v = digits_val(s.subrange(i, j));
            if v > i64::MAX {
                Err("Invalid number"@)
            } else {
                lex_cons(Token::Number(v as i64), lex_spec(s, j))
            }
        } else {
            Err(invalid_char_msg(c))
        }
    }
}

#[via_fn]
proof fn lex_spec_dec(s: Seq<char>, i: int) {
    if 0 <= i < s.len() && is_digit(s[i]) {
        lemma_run_end_bounds(s, i);
    }
}

/// The end of a digit run lies between its start and the end of the text,
/// and past its start when the first character is a digit.
pub proof fn lemma_run_end_bounds(s: Seq<char>, i: int)
    requires
        0 <= i <= s.len(),
    ensures
        i <= run_end(s, i) <= s.len(),
        i < s.len() && is_digit(s[i]) ==> i + 1 <= run_end(s, i),
    decreases s.len() - i,
{
    if i < s.len() && is_digit(s[i]) {
        lemma_run_end_bounds(s, i + 1);
    }
}

/// Every character before the end of the run is a digit, and the run ends
/// at the end of the text or right before a character that is no digit.
pub proof fn lemma_run_end_digits(s: Seq<char>, i: int)
    requires
        0 <= i <= s.len(),
    ensures
        forall|k: int| i <= k < run_end(s, i) ==> #[trigger] is_digit(s[k]),
        run_end(s, i) == s.len() || !is_digit(s[run_end(s, i)]),
    decreases s.len() - i,
{
    lemma_run_end_bounds(s, i);
    if i < s.len() && is_digit(s[i]) {
        lemma_run_end_digits(s, i + 1);
    }
}

/// A stretch of digits with no digit right after it is exactly the maximal
/// run from its start.
pub proof fn lemma_run_end_exact(s: Seq<char>, i: int, j: int)
    requires
        0 <= i <= j <= s.len(),
        forall|k: int| i <= k < j ==> #[trigger] is_digit(s[k]),
        j == s.len() || !is_digit(s[j]),
    ensures
        run_end(s, i) == j,
    decreases j - i,
{
    if i < j {
        lemma_run_end_exact(s, i + 1, j);
    }
}

/// The value of a digit run is never negative.
pub proof fn lemma_digits_val_nonneg(s: Seq<char>)
    requires
        forall|k: int| 0 <= k < s.len() ==> #[trigger] is_digit(s[k]),
    ensures
        digits_val(s) >= 0,
    decreases s.len(),
{
    if s.len() > 0 {
        assert forall|k: int| 0 <= k < s.drop_last().len() implies #[trigger] is_digit(
            s.drop_last()[k],
        ) by {
            assert(s.drop_last()[k] == s[k]);
            assert(is_digit(s[k]));
        }
        lemma_digits_val_nonneg(s.drop_last());
        assert(is_digit(s[s.len() - 1]));
        assert(digits_val(s.drop_last()) * 10 >= 0);
    }
}

/// Appending one digit multiplies the value by ten and adds the digit.
pub proof fn lemma_digits_val_step(s: Seq<char>, a: int, b: int)
    requires
        0 <= a <= b < s.len(),
    ensures
        digits_val(s.subrange(a, b + 1)) == digits_val(s.subrange(a, b)) * 10 + digit_val(s[b]),
{
    assert(s.subrange(a, b + 1).drop_last() =~= s.subrange(a, b));
    assert(s.subrange(a, b + 1).last() == s[b]);
}

/// A longer digit run never has a smaller value.
pub proof fn lemma_digits_val_grows(s: Seq<char>, a: int, b: int, c: int)
    requires
        0 <= a <= b <= c <= s.len(),
        forall|k: int| a <= k < c ==> #[trigger] is_digit(s[k]),
    ensures
        digits_val(s.subrange(a, c)) >= digits_val(s.subrange(a, b)),
        digits_val(s.subrange(a, b)) >= 0,
    decreases c - b,
{
    assert(forall|k: int| 0 <= k < b - a ==> #[trigger] is_digit(s.subrange(a, b)[k]));
    lemma_digits_val_nonneg(s.subrange(a, b));
    if b < c {
        lemma_digits_val_grows(s, a, b + 1, c);
        lemma_digits_val_step(s, a, b);
        let x = digits_val(s.subrange(a, b));
        assert(x * 10 >= x);
    }
}

/// Putting the taken tokens in front commutes with taking one more.
pub proof fn lemma_prepend_cons(ts: Seq<Token>, t: Token, r: Result<Seq<Token>, Seq<char>>)
    ensures
        lex_prepend(ts, lex_cons(t, r)) == lex_prepend(ts.push(t), r),
{
    match r {
        Ok(rest) => {
            assert(ts + (seq![t] + rest) =~= ts.push(t) + rest);
        },
        Err(m) => {},
    }
}

/// The digit value of a character, as an executable result.
pub fn digit_val_of(c: char) -> (d: i64)
    ensures
        d == digit_val(c),
{
    if c == '0' {
        0
    } else if c == '1' {
        1
    } else if c == '2' {
        2
    } else if c == '3' {
        3
    } else if c == '4' {
        4
    } else if c == '5' {
        5
    } else if c == '6' {
        6
    } else if c == '7' {
        7
    } else if c == '8' {
        8
    } else if c == '9' {
        9
    } else {
        -1
    }
}

} // verus!
