//! The tokenizer and the recursive-descent parser.
//!
//! The grammar has three levels, written so that a lower call depth binds
//! less tightly: a chain of additions and subtractions over terms, a chain
//! of multiplications, divisions and remainders over factors, and a factor,
//! which is a number, a negated factor, or a parenthesized chain. The two
//! chains fold to the left; unary minus recurses into a factor and so binds
//! tighter than every binary operator.

use vstd::prelude::*;
use vstd::string::StrSliceExecFns;
use vstd::string::StringExecFns;
use crate::ast::Expression;
use crate::digits::push_char;
use crate::lexer::Token;
use crate::lexer::digit_val_of;
use crate::lexer::digits_val;
use crate::lexer::invalid_char_msg;
use crate::lexer::is_digit;
use crate::lexer::lex_cons;
use crate::lexer::lex_prepend;
use crate::lexer::lex_spec;
use crate::lexer::lemma_digits_val_grows;
use crate::lexer::lemma_digits_val_step;
use crate::lexer::lemma_prepend_cons;
use crate::lexer::lemma_run_end_bounds;
use crate::lexer::lemma_run_end_digits;
use crate::lexer::run_end;

verus! {

/// A factor: a number token, a minus sign before a factor, or a chain in
/// parentheses. Anything else, and an exhausted token stream, is refused.
pub open spec fn parse_factor_spec(toks: Seq<Token>, i: int) -> Result<
    (Expression, int),
    Seq<char>,
>
    decreases toks.len() - i, 0int,
{
    if !(0 <= i < toks.len()) {
        Err("Invalid expression"@)
    } else {
        match toks[i] {
            Token::Number(n) => Ok((Expression::Number(n), i + 1)),
            Token::Minus => match parse_factor_spec(toks, i + 1) {
                Ok(p) => Ok((Expression::Negation(Box::new(p.0)), p.1)),
                Err(m) => Err(m),
            },
            Token::LeftParen => match parse_expr_spec(toks, i + 1) {
                Ok(p) => if 0 <= p.1 < toks.len() && toks[p.1] == Token::RightParen {
                    Ok((p.0, p.1 + 1))
                } else {
                    Err("Expected ')'"@)
                },
                Err(m) => Err(m),
            },
            _ => Err("Invalid expression"@),
        }
    }
}

/// Left-folds factors onto `acc` while the next token multiplies, divides
/// or takes a remainder.
pub open spec fn parse_term_rest_spec(toks: Seq<Token>, i: int, acc: Expression) -> Result<
    (Expression, int),
    Seq<char>,
>
    decreases toks.len() - i, 1int,
{
    if 0 <= i < toks.len() && (toks[i] == Token::Times || toks[i] == Token::Divide || toks[i]
        == Token::Modulo) {
        match parse_factor_spec(toks, i + 1) {
            Ok(p) => {
                let node = if toks[i] == Token::Times {
                    Expression::Multiplication(Box::new(acc), Box::new(p.0))
                } else if toks[i] == Token::Divide {
                    Expression::Division(Box::new(acc), Box::new(p.0))
                } else {
                    Expression::Remainder(Box::new(acc), Box::new(p.0))
                };
                if i < p.1 <= toks.len() {
                    parse_term_rest_spec(toks, p.1, node)
                } else {
                    Ok((node, p.1))
                }
            },
            Err(m) => Err(m),
        }
    } else {
        Ok((acc, i))
    }
}

/// A term: a factor, then a left-folded chain of `* / %`.
pub open spec fn parse_term_spec(toks: Seq<Token>, i: int) -> Result<(Expression, int), Seq<char>>
    decreases toks.len() - i, 2int,
{
    match parse_factor_spec(toks, i) {
        Ok(p) => if i <= p.1 <= toks.len() {
            parse_term_rest_spec(toks, p.1, p.0)
        } else {
            Ok(p)
        },
        Err(m) => Err(m),
    }
}

/// Left-folds terms onto `acc` while the next token adds or subtracts.
pub open spec fn parse_expr_rest_spec(toks: Seq<Token>, i: int, acc: Expression) -> Result<
    (Expression, int),
    Seq<char>,
>
    decreases toks.len() - i, 3int,
{
    if 0 <= i < toks.len() && (toks[i] == Token::Plus || toks[i] == Token::Minus) {
        match parse_term_spec(toks, i + 1) {
            Ok(p) => {
                let node = if toks[i] == Token::Plus {
                    Expression::Addition(Box::new(acc), Box::new(p.0))
                } else {
                    Expression::Subtraction(Box::new(acc), Box::new(p.0))
                };
                if i < p.1 <= toks.len() {
                    parse_expr_rest_spec(toks, p.1, node)
                } else {
                    Ok((node, p.1))
                }
            },
            Err(m) => Err(m),
        }
    } else {
        Ok((acc, i))
    }
}

/// A whole chain: a term, then a left-folded chain of `+ -`. Trailing
/// tokens that cannot continue the chain are left unconsumed.
pub open spec fn parse_expr_spec(toks: Seq<Token>, i: int) -> Result<(Expression, int), Seq<char>>
    decreases toks.len() - i, 4int,
{
    match parse_term_spec(toks, i) {
        Ok(p) => if i <= p.1 <= toks.len() {
            parse_expr_rest_spec(toks, p.1, p.0)
        } else {
            Ok(p)
        },
        Err(m) => Err(m),
    }
}

/// The fold over `+ -` stops when no such operator is next.
pub(crate) proof fn lemma_expr_rest_stop(toks: Seq<Token>, i: int, acc: Expression)
    requires
        !(0 <= i < toks.len() && (toks[i] == Token::Plus || toks[i] == Token::Minus)),
    ensures
        parse_expr_rest_spec(toks, i, acc) == Ok::<(Expression, int), Seq<char>>((acc, i)),
{
}

/// One step of the fold over `+ -`.
pub(crate) proof fn lemma_expr_rest_step(toks: Seq<Token>, i: int, acc: Expression)
    requires
        0 <= i < toks.len(),
        toks[i] == Token::Plus || toks[i] == Token::Minus,
    ensures
        match parse_term_spec(toks, i + 1) {
            Err(m) => parse_expr_rest_spec(toks, i, acc) == Err::<(Expression, int), Seq<char>>(
                m,
            ),
            Ok(p) => i < p.1 <= toks.len() ==> parse_expr_rest_spec(toks, i, acc)
                == parse_expr_rest_spec(
                toks,
                p.1,
                if toks[i] == Token::Plus {
                    Expression::Addition(Box::new(acc), Box::new(p.0))
                } else {
                    Expression::Subtraction(Box::new(acc), Box::new(p.0))
                },
            ),
        },
{
}

/// The fold over `* / %` stops when no such operator is next.
pub(crate) proof fn lemma_term_rest_stop(toks: Seq<Token>, i: int, acc: Expression)
    requires
        !(0 <= i < toks.len() && (toks[i] == Token::Times || toks[i] == Token::Divide || toks[i]
            == Token::Modulo)),
    ensures
        parse_term_rest_spec(toks, i, acc) == Ok::<(Expression, int), Seq<char>>((acc, i)),
{
}

/// One step of the fold over `* / %`.
pub(crate) proof fn lemma_term_rest_step(toks: Seq<Token>, i: int, acc: Expression)
    requires
        0 <= i < toks.len(),
        toks[i] == Token::Times || toks[i] == Token::Divide || toks[i] == Token::Modulo,
    ensures
        match parse_factor_spec(toks, i + 1) {
            Err(m) => parse_term_rest_spec(toks, i, acc) == Err::<(Expression, int), Seq<char>>(
                m,
            ),
            Ok(p) => i < p.1 <= toks.len() ==> parse_term_rest_spec(toks, i, acc)
                == parse_term_rest_spec(
                toks,
                p.1,
                if toks[i] == Token::Times {
                    Expression::Multiplication(Box::new(acc), Box::new(p.0))
                } else if toks[i] == Token::Divide {
                    Expression::Division(Box::new(acc), Box::new(p.0))
                } else {
                    Expression::Remainder(Box::new(acc), Box::new(p.0))
                },
            ),
        },
{
}

/// A successful factor consumes at least one token and stops in bounds.
pub proof fn lemma_parse_factor_pos(toks: Seq<Token>, i: int)
    requires
        0 <= i,
    ensures
        parse_factor_spec(toks, i) matches Ok(p) ==> i + 1 <= p.1 <= toks.len(),
    decreases toks.len() - i, 0int,
{
    if 0 <= i < toks.len() {
        match toks[i] {
            Token::Minus => lemma_parse_factor_pos(toks, i + 1),
            Token::LeftParen => lemma_parse_expr_pos(toks, i + 1),
            _ => {},
        }
    }
}

/// The fold over `* / %` never moves backwards and stops in bounds.
pub proof fn lemma_parse_term_rest_pos(toks: Seq<Token>, i: int, acc: Expression)
    requires
        0 <= i <= toks.len(),
    ensures
        parse_term_rest_spec(toks, i, acc) matches Ok(p) ==> i <= p.1 <= toks.len(),
    decreases toks.len() - i, 1int,
{
    if 0 <= i < toks.len() && (toks[i] == Token::Times || toks[i] == Token::Divide || toks[i]
        == Token::Modulo) {
        lemma_parse_factor_pos(toks, i + 1);
        match parse_factor_spec(toks, i + 1) {
            Ok(p) => {
                let node = if toks[i] == Token::Times {
                    Expression::Multiplication(Box::new(acc), Box::new(p.0))
                } else if toks[i] == Token::Divide {
                    Expression::Division(Box::new(acc), Box::new(p.0))
                } else {
                    Expression::Remainder(Box::new(acc), Box::new(p.0))
                };
                if i < p.1 <= toks.len() {
                    lemma_parse_term_rest_pos(toks, p.1, node);
                }
            },
            Err(m) => {},
        }
    }
}

/// A successful term consumes at least one token and stops in bounds.
pub proof fn lemma_parse_term_pos(toks: Seq<Token>, i: int)
    requires
        0 <= i,
    ensures
        parse_term_spec(toks, i) matches Ok(p) ==> i + 1 <= p.1 <= toks.len(),
    decreases toks.len() - i, 2int,
{
    lemma_parse_factor_pos(toks, i);
    match parse_factor_spec(toks, i) {
        Ok(p) => {
            if i <= p.1 <= toks.len() {
                lemma_parse_term_rest_pos(toks, p.1, p.0);
            }
        },
        Err(m) => {},
    }
}

/// The fold over `+ -` never moves backwards and stops in bounds.
pub proof fn lemma_parse_expr_rest_pos(toks: Seq<Token>, i: int, acc: Expression)
    requires
        0 <= i <= toks.len(),
    ensures
        parse_expr_rest_spec(toks, i, acc) matches Ok(p) ==> i <= p.1 <= toks.len(),
    decreases toks.len() - i, 3int,
{
    if 0 <= i < toks.len() && (toks[i] == Token::Plus || toks[i] == Token::Minus) {
        lemma_parse_term_pos(toks, i + 1);
        match parse_term_spec(toks, i + 1) {
            Ok(p) => {
                let node = if toks[i] == Token::Plus {
                    Expression::Addition(Box::new(acc), Box::new(p.0))
                } else {
                    Expression::Subtraction(Box::new(acc), Box::new(p.0))
                };
                if i < p.1 <= toks.len() {
                    lemma_parse_expr_rest_pos(toks, p.1, node);
                }
            },
            Err(m) => {},
        }
    }
}

/// A successful chain consumes at least one token and stops in bounds.
pub proof fn lemma_parse_expr_pos(toks: Seq<Token>, i: int)
    requires
        0 <= i,
    ensures
        parse_expr_spec(toks, i) matches Ok(p) ==> i + 1 <= p.1 <= toks.len(),
    decreases toks.len() - i, 4int,
{
    lemma_parse_term_pos(toks, i);
    match parse_term_spec(toks, i) {
        Ok(p) => {
            if i <= p.1 <= toks.len() {
                lemma_parse_expr_rest_pos(toks, p.1, p.0);
            }
        },
        Err(m) => {},
    }
}

/// The parser: the token sequence of one input line and a cursor into it.
pub struct Parser {
    pub tokens: Vec<Token>,
    pub pos: usize,
}

impl Parser {
    /// Tokenizes the input and starts the cursor at the front.
    pub fn new(input: &str) -> (r: Result<Parser, String>)
        ensures
            match lex_spec(input@, 0) {
                Ok(toks) => r matches Ok(p) && p.tokens@ == toks && p.pos == 0,
                Err(m) => r matches Err(e) && e@ == m,
            },
    {
        match Self::tokenize(input) {
            Ok(tokens) => Ok(Parser { tokens, pos: 0 }),
            Err(e) => Err(e),
        }
    }

    /// Turns the whole input into tokens, or reports the first failure.
    pub fn tokenize(input: &str) -> (r: Result<Vec<Token>, String>)
        ensures
            match lex_spec(input@, 0) {
                Ok(toks) => r matches Ok(v) && v@ == toks,
                Err(m) => r matches Err(e) && e@ == m,
            },
    {
        let ghost s = input@;
        let n: usize = input.unicode_len();
        let mut tokens: Vec<Token> = Vec::new();
        let mut i: usize = 0;
        while i < n
            invariant
                s == input@,
                n == s.len(),
                i <= n,
                lex_spec(s, 0) == lex_prepend(tokens@, lex_spec(s, i as int)),
            decreases n - i,
        {
            let c = input.get_char(i);
            let ghost i0 = i as int;
            if c == ' ' || c == '\t' || c == '\n' {
                i = i + 1;
            } else if c == '+' {
                let ghost t0 = tokens@;
                tokens.push(Token::Plus);
                proof {
                    lemma_prepend_cons(t0, Token::Plus, lex_spec(s, i0 + 1));
                }
                i = i + 1;
            } else if c == '-' {
                let ghost t0 = tokens@;
                tokens.push(Token::Minus);
                proof {
                    lemma_prepend_cons(t0, Token::Minus, lex_spec(s, i0 + 1));
                }
                i = i + 1;
            } else if c == '*' {
                let ghost t0 = tokens@;
                tokens.push(Token::Times);
                proof {
                    lemma_prepend_cons(t0, Token::Times, lex_spec(s, i0 + 1));
                }
                i = i + 1;
            } else if c == '/' {
                let ghost t0 = tokens@;
                tokens.push(Token::Divide);
                proof {
                    lemma_prepend_cons(t0, Token::Divide, lex_spec(s, i0 + 1));
                }
                i = i + 1;
            } else if c == '%' {
                let ghost t0 = tokens@;
                tokens.push(Token::Modulo);
                proof {
                    lemma_prepend_cons(t0, Token::Modulo, lex_spec(s, i0 + 1));
                }
                i = i + 1;
            } else if c == '(' {
                let ghost t0 = tokens@;
                tokens.push(Token::LeftParen);
                proof {
                    lemma_prepend_cons(t0, Token::LeftParen, lex_spec(s, i0 + 1));
                }
                i = i + 1;
            } else if c == ')' {
                let ghost t0 = tokens@;
                tokens.push(Token::RightParen);
                proof {
                    lemma_prepend_cons(t0, Token::RightParen, lex_spec(s, i0 + 1));
                }
                i = i + 1;
            } else {
                let d = digit_val_of(c);
                if d >= 0 {
                    let start = i;
                    let ghost j = run_end(s, start as int);
                    proof {
                        lemma_run_end_bounds(s, start as int);
                        lemma_run_end_digits(s, start as int);
                    }
                    let mut acc: i64 = 0;
                    while i < n && digit_val_of(input.get_char(i)) >= 0
                        invariant
                            s == input@,
                            n == s.len(),
                            start as int <= i as int <= j,
                            j == run_end(s, start as int),
                            j <= n,
                            is_digit(s[start as int]),
                            lex_spec(s, 0) == lex_prepend(tokens@, lex_spec(s, start as int)),
                            acc == digits_val(s.subrange(start as int, i as int)),
                            0 <= acc,
                        decreases n - i,
                    {
                        let c2 = input.get_char(i);
                        let d2 = digit_val_of(c2);
                        proof {
                            lemma_run_end_digits(s, start as int);
                            assert(i < j) by {
                                if i as int == j {
                                    assert(j == s.len() || !is_digit(s[j]));
                                    assert(is_digit(s[i as int]));
                                }
                            }
                            lemma_digits_val_step(s, start as int, i as int);
                        }
                        if acc > 922337203685477580i64 || (acc == 922337203685477580i64 && d2
                            > 7) {
                            proof {
                                lemma_digits_val_grows(s, start as int, i as int + 1, j);
                                assert(digits_val(s.subrange(start as int, j)) > i64::MAX);
                                assert(lex_spec(s, start as int) == Err::<Seq<Token>, Seq<char>>(
                                    "Invalid number"@,
                                ));
                            }
                            return Err(String::from_str("Invalid number"));
                        }
                        acc = acc * 10 + d2;
                        i = i + 1;
                    }
                    proof {
                        lemma_run_end_bounds(s, start as int);
                        lemma_run_end_digits(s, start as int);
                        assert(i as int == j) by {
                            if (i as int) < j {
                                assert(is_digit(s[i as int]));
                            }
                        }
                        assert(lex_spec(s, start as int) == lex_cons(
                            Token::Number(acc),
                            lex_spec(s, j),
                        ));
                    }
                    let ghost t0 = tokens@;
                    tokens.push(Token::Number(acc));
                    proof {
                        lemma_prepend_cons(t0, Token::Number(acc), lex_spec(s, j));
                    }
                } else {
                    proof {
                        assert(lex_spec(s, i0) == Err::<Seq<Token>, Seq<char>>(
                            invalid_char_msg(c),
                        ));
                    }
                    let mut m = String::from_str("Invalid character: '");
                    push_char(&mut m, c);
                    m.append("'");
                    proof {
                        assert(m@ =~= invalid_char_msg(c));
                    }
                    return Err(m);
                }
            }
        }
        proof {
            assert(tokens@ + Seq::<Token>::empty() =~= tokens@);
        }
        Ok(tokens)
    }

    /// The token under the cursor, if any is left.
    pub fn current(&self) -> (t: Option<Token>)
        ensures
            match t {
                Some(tok) => self.pos < self.tokens@.len() && tok == self.tokens@[self.pos as int],
                None => self.pos >= self.tokens@.len(),
            },
    {
        if self.pos < self.tokens.len() {
            Some(self.tokens[self.pos])
        } else {
            None
        }
    }

    /// Moves the cursor one token ahead.
    pub fn advance(&mut self)
        requires
            old(self).pos < old(self).tokens@.len(),
        ensures
            final(self).tokens@ == old(self).tokens@,
            final(self).pos == old(self).pos + 1,
    {
        proof {
            broadcast use vstd::std_specs::vec::axiom_spec_len;

            assert(self.tokens.len() <= usize::MAX);
        }
        self.pos = self.pos + 1;
    }

    /// Parses one chain from the cursor on; tokens past it stay unread.
    pub fn parse(&mut self) -> (r: Result<Expression, String>)
        ensures
            final(self).tokens@ == old(self).tokens@,
            match parse_expr_spec(old(self).tokens@, old(self).pos as int) {
                Ok(p) => r matches Ok(e) && e == p.0 && final(self).pos == p.1,
                Err(m) => r matches Err(e) && e@ == m,
            },
    {
        self.parse_expression()
    }

    /// A term, then a left-folded chain of additions and subtractions.
    pub fn parse_expression(&mut self) -> (r: Result<Expression, String>)
        ensures
            final(self).tokens@ == old(self).tokens@,
            match parse_expr_spec(old(self).tokens@, old(self).pos as int) {
                Ok(p) => r matches Ok(e) && e == p.0 && final(self).pos == p.1,
                Err(m) => r matches Err(e) && e@ == m,
            },
        decreases old(self).tokens@.len() - old(self).pos, 4int,
    {
        let ghost toks = self.tokens@;
        let ghost i0 = self.pos as int;
        let mut left: Expression;
        match self.parse_term() {
            Ok(e) => {
                left = e;
            },
            Err(m) => {
                return Err(m);
            },
        }
        proof {
            lemma_parse_term_pos(toks, i0);
        }
        loop
            invariant
                toks == old(self).tokens@,
                i0 == old(self).pos as int,
                self.tokens@ == toks,
                i0 <= self.pos as int,
                self.pos <= toks.len(),
                parse_expr_spec(toks, i0) == parse_expr_rest_spec(toks, self.pos as int, left),
            decreases toks.len() - self.pos,
        {
            let ghost p0 = self.pos as int;
            let ghost left0 = left;
            match self.current() {
                Some(Token::Plus) => {
                    proof {
                        lemma_expr_rest_step(toks, p0, left0);
                    }
                    self.advance();
                    match self.parse_term() {
                        Ok(right) => {
                            proof {
                                lemma_parse_term_pos(toks, p0 + 1);
                            }
                            left = Expression::Addition(Box::new(left), Box::new(right));
                        },
                        Err(m) => {
                            return Err(m);
                        },
                    }
                },
                Some(Token::Minus) => {
                    proof {
                        lemma_expr_rest_step(toks, p0, left0);
                    }
                    self.advance();
                    match self.parse_term() {
                        Ok(right) => {
                            proof {
                                lemma_parse_term_pos(toks, p0 + 1);
                            }
                            left = Expression::Subtraction(Box::new(left), Box::new(right));
                        },
                        Err(m) => {
                            return Err(m);
                        },
                    }
                },
                _ => {
                    proof {
                        lemma_expr_rest_stop(toks, p0, left0);
                    }
                    return Ok(left);
                },
            }
        }
    }

    pub fn parse_term(&mut self) -> (r: Result<Expression, String>)
        ensures
            final(self).tokens@ == old(self).tokens@,
            match parse_term_spec(old(self).tokens@, old(self).pos as int) {
                Ok(p) => r matches Ok(e) && e == p.0 && final(self).pos == p.1,
                Err(m) => r matches Err(e) && e@ == m,
            },
        decreases old(self).tokens@.len() - old(self).pos, 2int,
    {
        let ghost toks = self.tokens@;
        let ghost i0 = self.pos as int;
        let mut left: Expression;
        match self.parse_factor() {
            Ok(e) => {
                left = e;
            },
            Err(m) => {
                return Err(m);
            },
        }
        proof {
            lemma_parse_factor_pos(toks, i0);
        }
        loop
            invariant
                toks == old(self).tokens@,
                i0 == old(self).pos as int,
                self.tokens@ == toks,
                i0 <= self.pos as int,
                self.pos <= toks.len(),
                parse_term_spec(toks, i0) == parse_term_rest_spec(toks, self.pos as int, left),
            decreases toks.len() - self.pos,
        {
            let ghost p0 = self.pos as int;
            let ghost left0 = left;
            match self.current() {
                Some(Token::Times) => {
                    proof {
                        lemma_term_rest_step(toks, p0, left0);
                    }
                    self.advance();
                    match self.parse_factor() {
                        Ok(right) => {
                            proof {
                                lemma_parse_factor_pos(toks, p0 + 1);
                            }
                            left = Expression::Multiplication(Box::new(left), Box::new(right));
                        },
                        Err(m) => {
                            return Err(m);
                        },
                    }
                },
                Some(Token::Divide) => {
                    proof {
                        lemma_term_rest_step(toks, p0, left0);
                    }
                    self.advance();
                    match self.parse_factor() {
                        Ok(right) => {
                            proof {
                                lemma_parse_factor_pos(toks, p0 + 1);
                            }
                            left = Expression::Division(Box::new(left), Box::new(right));
                        },
                        Err(m) => {
                            return Err(m);
                        },
                    }
                },
                Some(Token::Modulo) => {
                    proof {
                        lemma_term_rest_step(toks, p0, left0);
                    }
                    self.advance();
                    match self.parse_factor() {
                        Ok(right) => {
                            proof {
                                lemma_parse_factor_pos(toks, p0 + 1);
                            }
                            left = Expression::Remainder(Box::new(left), Box::new(right));
                        },
                        Err(m) => {
                            return Err(m);
                        },
                    }
                },
                _ => {
                    proof {
                        lemma_term_rest_stop(toks, p0, left0);
                    }
                    return Ok(left);
                },
            }
        }
    }

    pub fn parse_factor(&mut self) -> (r: Result<Expression, String>)
        ensures
            final(self).tokens@ == old(self).tokens@,
            match parse_factor_spec(old(self).tokens@, old(self).pos as int) {
                Ok(p) => r matches Ok(e) && e == p.0 && final(self).pos == p.1,
                Err(m) => r matches Err(e) && e@ == m,
            },
        decreases old(self).tokens@.len() - old(self).pos, 0int,
    {
        let ghost toks = self.tokens@;
        let ghost i0 = self.pos as int;
        match self.current() {
            Some(Token::Number(n)) => {
                self.advance();
                Ok(Expression::Number(n))
            },
            Some(Token::Minus) => {
                self.advance();
                match self.parse_factor() {
                    Ok(e) => Ok(Expression::Negation(Box::new(e))),
                    Err(m) => Err(m),
                }
            },
            Some(Token::LeftParen) => {
                self.advance();
                match self.parse_expression() {
                    Ok(e) => {
                        proof {
                            lemma_parse_expr_pos(toks, i0 + 1);
                        }
                        match self.current() {
                            Some(Token::RightParen) => {
                                self.advance();
                                Ok(e)
                            },
                            _ => Err(String::from_str("Expected ')'")),
                        }
                    },
                    Err(m) => Err(m),
                }
            },
            _ => Err(String::from_str("Invalid expression")),
        }
    }
}

} // verus!
