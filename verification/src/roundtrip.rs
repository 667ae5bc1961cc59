//! The canonical round trip.
//!
//! Rendering a parsed tree and parsing the rendering again gives back the
//! very same tree, so the second tree evaluates identically to the first.
//! The proof goes through the token level: lexing a rendering yields the
//! token sequence of the tree, and parsing that sequence rebuilds the tree.

use vstd::prelude::*;
use crate::ast::Expression;
use crate::ast::eval_spec;
use crate::digits::dec_seq;
use crate::digits::digit_char;
use crate::lexer::Token;
use crate::lexer::digit_val;
use crate::lexer::digits_val;
use crate::lexer::is_digit;
use crate::lexer::is_space;
use crate::lexer::lex_cons;
use crate::lexer::lex_prepend;
use crate::lexer::lex_spec;
use crate::lexer::lemma_run_end_exact;
use crate::lexer::run_end;
use crate::parser::parse_expr_rest_spec;
use crate::parser::parse_expr_spec;
use crate::parser::parse_factor_spec;
use crate::parser::parse_term_rest_spec;
use crate::parser::parse_term_spec;
use crate::parser::lemma_parse_factor_pos;
use crate::parser::lemma_parse_term_pos;
use crate::parser::lemma_parse_expr_pos;
use crate::parser::lemma_expr_rest_step;
use crate::parser::lemma_expr_rest_stop;
use crate::parser::lemma_term_rest_step;
use crate::parser::lemma_term_rest_stop;
use crate::render::paren;
use crate::render::render_spec;

verus! {

/// A tree every number leaf of which is non-negative. Parsing only builds
/// such trees: a minus sign always becomes its own negation node.
pub open spec fn wf(e: Expression) -> bool
    decreases e,
{
    match e {
        Expression::Number(n) => n >= 0,
        Expression::Addition(l, r) => wf(*l) && wf(*r),
        Expression::Subtraction(l, r) => wf(*l) && wf(*r),
        Expression::Multiplication(l, r) => wf(*l) && wf(*r),
        Expression::Division(l, r) => wf(*l) && wf(*r),
        Expression::Remainder(l, r) => wf(*l) && wf(*r),
        Expression::Negation(x) => wf(*x),
    }
}

/// The number of nodes of a tree.
pub open spec fn esize(e: Expression) -> nat
    decreases e,
{
    match e {
        Expression::Number(n) => 1,
        Expression::Addition(l, r) => 1 + esize(*l) + esize(*r),
        Expression::Subtraction(l, r) => 1 + esize(*l) + esize(*r),
        Expression::Multiplication(l, r) => 1 + esize(*l) + esize(*r),
        Expression::Division(l, r) => 1 + esize(*l) + esize(*r),
        Expression::Remainder(l, r) => 1 + esize(*l) + esize(*r),
        Expression::Negation(x) => 1 + esize(*x),
    }
}

/// Whether the rendering of `e` under minimum precedence `p` wraps itself
/// in parentheses.
pub open spec fn wrapped(e: Expression, p: int) -> bool {
    match e {
        Expression::Number(n) => false,
        Expression::Addition(l, r) => p > 1,
        Expression::Subtraction(l, r) => p > 1,
        Expression::Multiplication(l, r) => p > 3,
        Expression::Division(l, r) => p > 3,
        Expression::Remainder(l, r) => p > 3,
        Expression::Negation(x) => p > 5,
    }
}

/// `ts` wrapped in parenthesis tokens when `b` holds.
pub open spec fn maybe_wrap(b: bool, ts: Seq<Token>) -> Seq<Token> {
    if b {
        seq![Token::LeftParen] + ts + seq![Token::RightParen]
    } else {
        ts
    }
}

/// The token sequence of the rendering of a well-formed tree under minimum
/// precedence `p`.
pub open spec fn tokens_of(e: Expression, p: int) -> Seq<Token>
    decreases e,
{
    match e {
        Expression::Number(n) => seq![Token::Number(n)],
        Expression::Negation(x) => maybe_wrap(p > 5, seq![Token::Minus] + tokens_of(*x, 5)),
        Expression::Addition(l, r) => maybe_wrap(
            p > 1,
            tokens_of(*l, 1) + seq![Token::Plus] + tokens_of(*r, 2),
        ),
        Expression::Subtraction(l, r) => maybe_wrap(
            p > 1,
            tokens_of(*l, 1) + seq![Token::Minus] + tokens_of(*r, 2),
        ),
        Expression::Multiplication(l, r) => maybe_wrap(
            p > 3,
            tokens_of(*l, 3) + seq![Token::Times] + tokens_of(*r, 4),
        ),
        Expression::Division(l, r) => maybe_wrap(
            p > 3,
            tokens_of(*l, 3) + seq![Token::Divide] + tokens_of(*r, 4),
        ),
        Expression::Remainder(l, r) => maybe_wrap(
            p > 3,
            tokens_of(*l, 3) + seq![Token::Modulo] + tokens_of(*r, 4),
        ),
    }
}

/// Every character of a decimal rendering is a digit.
proof fn lemma_dec_seq_digits(v: nat)
    ensures
        dec_seq(v).len() >= 1,
        forall|k: int| 0 <= k < dec_seq(v).len() ==> #[trigger] is_digit(dec_seq(v)[k]),
    decreases v,
{
    if v < 10 {
        assert(is_digit(dec_seq(v)[0]));
    } else {
        lemma_dec_seq_digits(v / 10);
        assert forall|k: int| 0 <= k < dec_seq(v).len() implies #[trigger] is_digit(
            dec_seq(v)[k],
        ) by {
            if k < dec_seq(v / 10).len() {
                assert(dec_seq(v)[k] == dec_seq(v / 10)[k]);
            } else {
                assert(dec_seq(v)[k] == digit_char((v % 10) as int));
            }
        }
    }
}

/// A digit character reads back as the digit it was made from.
proof fn lemma_digit_char_val(d: int)
    requires
        0 <= d <= 9,
    ensures
        digit_val(digit_char(d)) == d,
{
}

/// Reading the decimal rendering of `v` back as digits gives `v`.
proof fn lemma_dec_seq_val(v: nat)
    ensures
        digits_val(dec_seq(v)) == v,
    decreases v,
{
    if v < 10 {
        lemma_digit_char_val(v as int);
        assert(dec_seq(v).drop_last() =~= Seq::<char>::empty());
        assert(digits_val(Seq::<char>::empty()) == 0);
        assert(dec_seq(v).last() == digit_char(v as int));
        assert(digits_val(dec_seq(v)) == digits_val(dec_seq(v).drop_last()) * 10 + digit_val(
            dec_seq(v).last(),
        ));
    } else {
        lemma_dec_seq_val(v / 10);
        lemma_digit_char_val((v % 10) as int);
        assert(dec_seq(v).drop_last() =~= dec_seq(v / 10));
        assert(dec_seq(v).last() == digit_char((v % 10) as int));
    }
}

/// Lexing at the start of the decimal rendering of `n` takes the whole
/// rendering as one number token.
proof fn lemma_lex_number(n: int, s: Seq<char>, i: int)
    requires
        0 <= n <= i64::MAX,
        0 <= i,
        i + dec_seq(n as nat).len() <= s.len(),
        s.subrange(i, i + dec_seq(n as nat).len()) == dec_seq(n as nat),
        i + dec_seq(n as nat).len() < s.len() ==> !is_digit(
            s[i + dec_seq(n as nat).len()],
        ),
    ensures
        lex_spec(s, i) == lex_cons(Token::Number(n as i64), lex_spec(s, i + dec_seq(
            n as nat,
        ).len())),
{
    let d = dec_seq(n as nat);
    let k = d.len() as int;
    lemma_dec_seq_digits(n as nat);
    assert forall|m: int| i <= m < i + k implies #[trigger] is_digit(s[m]) by {
        assert(s[m] == s.subrange(i, i + k)[m - i]);
        assert(is_digit(d[m - i]));
    }
    lemma_run_end_exact(s, i, i + k);
    assert(s.subrange(i, i + k) =~= d);
    lemma_dec_seq_val(n as nat);
    assert(digits_val(s.subrange(i, run_end(s, i))) == n);
    assert(is_digit(s[i]));
}

/// The single-character symbols and their tokens.
pub open spec fn sym_pair(c: char, t: Token) -> bool {
    ||| (c == '+' && t == Token::Plus)
    ||| (c == '-' && t == Token::Minus)
    ||| (c == '*' && t == Token::Times)
    ||| (c == '/' && t == Token::Divide)
    ||| (c == '%' && t == Token::Modulo)
    ||| (c == '(' && t == Token::LeftParen)
    ||| (c == ')' && t == Token::RightParen)
}

/// Lexing over a whitespace character skips it.
proof fn lemma_lex_space(s: Seq<char>, i: int)
    requires
        0 <= i < s.len(),
        is_space(s[i]),
    ensures
        lex_spec(s, i) == lex_spec(s, i + 1),
{
}

/// Lexing over a symbol takes its one token.
proof fn lemma_lex_symbol(s: Seq<char>, i: int, c: char, t: Token)
    requires
        0 <= i < s.len(),
        s[i] == c,
        sym_pair(c, t),
    ensures
        lex_spec(s, i) == lex_cons(t, lex_spec(s, i + 1)),
{
}

/// Putting two front parts on in turn is putting their concatenation on.
proof fn lemma_prepend_prepend(a: Seq<Token>, b: Seq<Token>, r: Result<Seq<Token>, Seq<char>>)
    ensures
        lex_prepend(a, lex_prepend(b, r)) == lex_prepend(a + b, r),
{
    match r {
        Ok(rest) => {
            assert(a + (b + rest) =~= (a + b) + rest);
        },
        Err(m) => {},
    }
}

/// Taking one token is putting a one-token front part on.
proof fn lemma_cons_prepend(t: Token, r: Result<Seq<Token>, Seq<char>>)
    ensures
        lex_cons(t, r) == lex_prepend(seq![t], r),
{
}

/// Lexing from the start of the rendering of one binary node: the left
/// rendering, a spaced operator, and the right rendering become the left
/// tokens, the operator token, and the right tokens.
proof fn lemma_lex_render_binary(
    l: Expression,
    r: Expression,
    lp: int,
    rp: int,
    c: char,
    ct: Token,
    s: Seq<char>,
    i: int,
    rend: Seq<char>,
)
    requires
        wf(l),
        wf(r),
        rp == lp + 1,
        sym_pair(c, ct),
        c != '(' && c != ')',
        rend == render_spec(l, lp) + seq![' ', c, ' '] + render_spec(r, rp),
        0 <= i,
        i + rend.len() <= s.len(),
        s.subrange(i, i + rend.len()) == rend,
        i + rend.len() < s.len() ==> !is_digit(s[i + rend.len()]),
    ensures
        lex_spec(s, i) == lex_prepend(
            tokens_of(l, lp) + seq![ct] + tokens_of(r, rp),
            lex_spec(s, i + rend.len()),
        ),
    decreases esize(l) + esize(r), 0int,
{
    let ls = render_spec(l, lp);
    let rs = render_spec(r, rp);
    let a = ls.len() as int;
    let k = rend.len() as int;
    assert(k == a + 3 + rs.len());
    assert forall|j: int| 0 <= j < k implies s[i + j] == rend[j] by {
        assert(s.subrange(i, i + k)[j] == s[i + j]);
    }
    assert(s.subrange(i, i + a) =~= ls) by {
        assert forall|j: int| 0 <= j < a implies s.subrange(i, i + a)[j] == ls[j] by {
            assert(s[i + j] == rend[j]);
            assert(rend[j] == ls[j]);
        }
    }
    assert(s.subrange(i, i + k)[a] == s[i + a]);
    assert(rend[a] == (seq![' ', c, ' '])[0]);
    assert(s[i + a] == ' ');
    lemma_lex_render(l, lp, s, i);
    assert(s.subrange(i + a + 3, i + k) =~= rs) by {
        assert forall|j: int| 0 <= j < rs.len() implies s.subrange(i + a + 3, i + k)[j]
            == rs[j] by {
            assert(s[i + a + 3 + j] == rend[a + 3 + j]);
            assert(rend[a + 3 + j] == rs[j]);
        }
    }
    lemma_lex_render(r, rp, s, i + a + 3);
    assert(s.subrange(i, i + k)[a + 1] == s[i + a + 1]);
    assert(rend[a + 1] == (seq![' ', c, ' '])[1]);
    assert(s[i + a + 1] == c);
    assert(s.subrange(i, i + k)[a + 2] == s[i + a + 2]);
    assert(rend[a + 2] == (seq![' ', c, ' '])[2]);
    assert(s[i + a + 2] == ' ');
    lemma_lex_space(s, i + a);
    lemma_lex_symbol(s, i + a + 1, c, ct);
    lemma_lex_space(s, i + a + 2);
    let z = lex_spec(s, i + k);
    let lt = tokens_of(l, lp);
    let rt = tokens_of(r, rp);
    assert(lex_spec(s, i + a) == lex_cons(ct, lex_prepend(rt, z)));
    lemma_cons_prepend(ct, lex_prepend(rt, z));
    lemma_prepend_prepend(seq![ct], rt, z);
    lemma_prepend_prepend(lt, seq![ct] + rt, z);
    assert(lex_spec(s, i) == lex_prepend(lt, lex_prepend(seq![ct] + rt, z)));
    assert(lt + (seq![ct] + rt) =~= lt + seq![ct] + rt);
}

/// Lexing from the start of the rendering of a well-formed tree takes
/// exactly the tree's token sequence, whatever non-digit text follows.
pub proof fn lemma_lex_render(e: Expression, p: int, s: Seq<char>, i: int)
    requires
        wf(e),
        0 <= i,
        i + render_spec(e, p).len() <= s.len(),
        s.subrange(i, i + render_spec(e, p).len()) == render_spec(e, p),
        i + render_spec(e, p).len() < s.len() ==> !is_digit(s[i + render_spec(e, p).len()]),
    ensures
        lex_spec(s, i) == lex_prepend(tokens_of(e, p), lex_spec(s, i + render_spec(e, p).len())),
    decreases esize(e), (if wrapped(e, p) { 1int } else { 0int }),
{
    let rend = render_spec(e, p);
    let k = rend.len() as int;
    assert forall|j: int| 0 <= j < k implies s[i + j] == rend[j] by {
        assert(s.subrange(i, i + k)[j] == s[i + j]);
    }
    if wrapped(e, p) {
        let core = render_spec(e, 0);
        assert(rend == paren(core));
        assert(k == core.len() + 2);
        assert(s.subrange(i, i + k)[0] == s[i]);
        assert(rend[0] == (seq!['('])[0]);
        assert(s[i] == '(');
        lemma_lex_symbol(s, i, '(', Token::LeftParen);
        assert(s.subrange(i + 1, i + 1 + core.len()) =~= core) by {
            assert forall|j: int| 0 <= j < core.len() implies s.subrange(
                i + 1,
                i + 1 + core.len(),
            )[j] == core[j] by {
                assert(s[i + 1 + j] == rend[1 + j]);
                assert(rend[1 + j] == core[j]);
            }
        }
        assert(s.subrange(i, i + k)[k - 1] == s[i + k - 1]);
        assert(rend[k - 1] == (seq![')'])[0]);
        assert(s[i + k - 1] == ')');
        lemma_lex_render(e, 0, s, i + 1);
        lemma_lex_symbol(s, i + k - 1, ')', Token::RightParen);
        let z = lex_spec(s, i + k);
        let core_t = tokens_of(e, 0);
        assert(lex_spec(s, i + 1) == lex_prepend(core_t, lex_cons(Token::RightParen, z)));
        lemma_cons_prepend(Token::RightParen, z);
        lemma_prepend_prepend(core_t, seq![Token::RightParen], z);
        lemma_cons_prepend(Token::LeftParen, lex_prepend(core_t + seq![Token::RightParen], z));
        lemma_prepend_prepend(seq![Token::LeftParen], core_t + seq![Token::RightParen], z);
        assert(seq![Token::LeftParen] + (core_t + seq![Token::RightParen]) =~= seq![
            Token::LeftParen,
        ] + core_t + seq![Token::RightParen]);
        assert(tokens_of(e, p) == seq![Token::LeftParen] + core_t + seq![Token::RightParen]);
    } else {
        match e {
            Expression::Number(n) => {
                assert(n >= 0);
                assert(rend == dec_seq(n as nat));
                lemma_lex_number(n as int, s, i);
                lemma_cons_prepend(Token::Number(n), lex_spec(s, i + k));
                assert(tokens_of(e, p) == seq![Token::Number(n)]);
            },
            Expression::Negation(x) => {
                assert(s.subrange(i, i + k)[0] == s[i]);
                assert(rend[0] == (seq!['-'])[0]);
                assert(s[i] == '-');
                lemma_lex_symbol(s, i, '-', Token::Minus);
                let xs = render_spec(*x, 5);
                assert(s.subrange(i + 1, i + k) =~= xs) by {
                    assert forall|j: int| 0 <= j < xs.len() implies s.subrange(i + 1, i + k)[j]
                        == xs[j] by {
                        assert(s[i + 1 + j] == rend[1 + j]);
                        assert(rend[1 + j] == xs[j]);
                    }
                }
                lemma_lex_render(*x, 5, s, i + 1);
                let z = lex_spec(s, i + k);
                let xt = tokens_of(*x, 5);
                assert(lex_spec(s, i) == lex_cons(Token::Minus, lex_prepend(xt, z)));
                lemma_cons_prepend(Token::Minus, lex_prepend(xt, z));
                lemma_prepend_prepend(seq![Token::Minus], xt, z);
                assert(tokens_of(e, p) == seq![Token::Minus] + xt);
            },
            Expression::Addition(l, r) => {
                lemma_lex_render_binary(*l, *r, 1, 2, '+', Token::Plus, s, i, rend);
            },
            Expression::Subtraction(l, r) => {
                lemma_lex_render_binary(*l, *r, 1, 2, '-', Token::Minus, s, i, rend);
            },
            Expression::Multiplication(l, r) => {
                lemma_lex_render_binary(*l, *r, 3, 4, '*', Token::Times, s, i, rend);
            },
            Expression::Division(l, r) => {
                lemma_lex_render_binary(*l, *r, 3, 4, '/', Token::Divide, s, i, rend);
            },
            Expression::Remainder(l, r) => {
                lemma_lex_render_binary(*l, *r, 3, 4, '%', Token::Modulo, s, i, rend);
            },
        }
    }
}

/// A multiplication-level node.
pub open spec fn is_mul_node(e: Expression) -> bool {
    match e {
        Expression::Multiplication(l, r) => true,
        Expression::Division(l, r) => true,
        Expression::Remainder(l, r) => true,
        _ => false,
    }
}

/// An addition-level node.
pub open spec fn is_add_node(e: Expression) -> bool {
    match e {
        Expression::Addition(l, r) => true,
        Expression::Subtraction(l, r) => true,
        _ => false,
    }
}

/// A token that continues a term chain.
pub open spec fn is_mul_op(t: Token) -> bool {
    t == Token::Times || t == Token::Divide || t == Token::Modulo
}

/// A token that continues an expression chain.
pub open spec fn is_add_op(t: Token) -> bool {
    t == Token::Plus || t == Token::Minus
}

/// The proof order of the five parsing claims on one node shape.
pub open spec fn rank_f(e: Expression) -> int {
    if is_mul_node(e) {
        4
    } else if is_add_node(e) {
        2
    } else {
        0
    }
}

pub open spec fn rank_e(e: Expression) -> int {
    if is_mul_node(e) {
        3
    } else if is_add_node(e) {
        1
    } else {
        4
    }
}

pub open spec fn rank_eg(e: Expression) -> int {
    if is_mul_node(e) {
        2
    } else if is_add_node(e) {
        0
    } else {
        3
    }
}

pub open spec fn rank_t(e: Expression) -> int {
    if is_mul_node(e) {
        1
    } else if is_add_node(e) {
        4
    } else {
        2
    }
}

pub open spec fn rank_tg(e: Expression) -> int {
    if is_mul_node(e) {
        0
    } else if is_add_node(e) {
        3
    } else {
        1
    }
}

/// Parsing a factor at the start of the token sequence of a tree rendered
/// under a factor-level threshold rebuilds exactly that tree.
proof fn lemma_parse_factor_tokens(e: Expression, p: int, toks: Seq<Token>, i: int)
    requires
        wf(e),
        p == 4 || p == 5,
        0 <= i,
        i + tokens_of(e, p).len() <= toks.len(),
        toks.subrange(i, i + tokens_of(e, p).len()) == tokens_of(e, p),
    ensures
        parse_factor_spec(toks, i) == Ok::<(Expression, int), Seq<char>>((
            e,
            i + tokens_of(e, p).len(),
        )),
    decreases esize(e), rank_f(e),
{
    let tk = tokens_of(e, p);
    let k = tk.len() as int;
    match e {
        Expression::Number(n) => {
            assert(toks.subrange(i, i + k)[0] == toks[i]);
            assert(toks[i] == Token::Number(n));
        },
        Expression::Negation(x) => {
            assert(tk == seq![Token::Minus] + tokens_of(*x, 5));
            assert(toks.subrange(i, i + k)[0] == toks[i]);
            assert(toks[i] == Token::Minus);
            assert(toks.subrange(i + 1, i + k) =~= tokens_of(*x, 5)) by {
                assert forall|j: int| 0 <= j < k - 1 implies toks.subrange(i + 1, i + k)[j]
                    == tokens_of(*x, 5)[j] by {
                    assert(toks.subrange(i, i + k)[1 + j] == toks[i + 1 + j]);
                }
            }
            lemma_parse_factor_tokens(*x, 5, toks, i + 1);
        },
        _ => {
            let core = tokens_of(e, 0);
            assert(tk == seq![Token::LeftParen] + core + seq![Token::RightParen]);
            assert(k == core.len() + 2);
            assert(toks.subrange(i, i + k)[0] == toks[i]);
            assert(toks[i] == Token::LeftParen);
            assert(toks.subrange(i, i + k)[k - 1] == toks[i + k - 1]);
            assert(toks[i + k - 1] == Token::RightParen);
            assert(toks.subrange(i + 1, i + k - 1) =~= core) by {
                assert forall|j: int| 0 <= j < core.len() implies toks.subrange(
                    i + 1,
                    i + k - 1,
                )[j] == core[j] by {
                    assert(toks.subrange(i, i + k)[1 + j] == toks[i + 1 + j]);
                }
            }
            assert(tokens_of(e, 1) == core);
            lemma_parse_expr_tokens(e, toks, i + 1);
        },
    }
}

/// Parsing a whole chain over the token sequence of a tree, with no
/// operator right after it, rebuilds exactly that tree.
proof fn lemma_parse_expr_tokens(e: Expression, toks: Seq<Token>, i: int)
    requires
        wf(e),
        0 <= i,
        i + tokens_of(e, 1).len() <= toks.len(),
        toks.subrange(i, i + tokens_of(e, 1).len()) == tokens_of(e, 1),
        i + tokens_of(e, 1).len() < toks.len() ==> !is_mul_op(toks[i + tokens_of(e, 1).len()])
            && !is_add_op(toks[i + tokens_of(e, 1).len()]),
    ensures
        parse_expr_spec(toks, i) == Ok::<(Expression, int), Seq<char>>((
            e,
            i + tokens_of(e, 1).len(),
        )),
    decreases esize(e), rank_e(e),
{
    let k = tokens_of(e, 1).len() as int;
    lemma_parse_expr_tokens_gen(e, toks, i);
    lemma_expr_rest_stop(toks, i + k, e);
}

/// Parsing a chain from the start of the token sequence of a tree first
/// rebuilds that tree, then goes on folding from its end.
proof fn lemma_parse_expr_tokens_gen(e: Expression, toks: Seq<Token>, i: int)
    requires
        wf(e),
        0 <= i,
        i + tokens_of(e, 1).len() <= toks.len(),
        toks.subrange(i, i + tokens_of(e, 1).len()) == tokens_of(e, 1),
        i + tokens_of(e, 1).len() < toks.len() ==> !is_mul_op(toks[i + tokens_of(e, 1).len()]),
    ensures
        parse_expr_spec(toks, i) == parse_expr_rest_spec(toks, i + tokens_of(e, 1).len(), e),
    decreases esize(e), rank_eg(e),
{
    let tk = tokens_of(e, 1);
    let k = tk.len() as int;
    match e {
        Expression::Addition(l, r) => {
            lemma_parse_expr_addsub(e, *l, *r, Token::Plus, toks, i);
        },
        Expression::Subtraction(l, r) => {
            lemma_parse_expr_addsub(e, *l, *r, Token::Minus, toks, i);
        },
        _ => {
            assert(tokens_of(e, 3) == tk);
            lemma_parse_term_tokens(e, toks, i);
        },
    }
}

/// The addition-level case of the chain claim: the left chain, the
/// operator, and the right term fold into exactly the node.
proof fn lemma_parse_expr_addsub(
    e: Expression,
    l: Expression,
    r: Expression,
    ot: Token,
    toks: Seq<Token>,
    i: int,
)
    requires
        wf(e),
        wf(l),
        wf(r),
        (e == Expression::Addition(Box::new(l), Box::new(r)) && ot == Token::Plus) || (e
            == Expression::Subtraction(Box::new(l), Box::new(r)) && ot == Token::Minus),
        esize(l) < esize(e),
        esize(r) < esize(e),
        tokens_of(e, 1) == tokens_of(l, 1) + seq![ot] + tokens_of(r, 2),
        0 <= i,
        i + tokens_of(e, 1).len() <= toks.len(),
        toks.subrange(i, i + tokens_of(e, 1).len()) == tokens_of(e, 1),
        i + tokens_of(e, 1).len() < toks.len() ==> !is_mul_op(toks[i + tokens_of(e, 1).len()]),
    ensures
        parse_expr_spec(toks, i) == parse_expr_rest_spec(toks, i + tokens_of(e, 1).len(), e),
    decreases esize(l) + esize(r), 0int,
{
    let tk = tokens_of(e, 1);
    let k = tk.len() as int;
    let lt = tokens_of(l, 1);
    let al = lt.len() as int;
    let rt = tokens_of(r, 2);
    assert(k == al + 1 + rt.len());
    assert(toks.subrange(i, i + al) =~= lt) by {
        assert forall|j: int| 0 <= j < al implies toks.subrange(i, i + al)[j] == lt[j] by {
            assert(toks.subrange(i, i + k)[j] == toks[i + j]);
        }
    }
    assert(toks.subrange(i, i + k)[al] == toks[i + al]);
    assert(toks[i + al] == ot);
    lemma_parse_expr_tokens_gen(l, toks, i);
    assert(toks.subrange(i + al + 1, i + k) =~= rt) by {
        assert forall|j: int| 0 <= j < rt.len() implies toks.subrange(i + al + 1, i + k)[j]
            == rt[j] by {
            assert(toks.subrange(i, i + k)[al + 1 + j] == toks[i + al + 1 + j]);
        }
    }
    assert(tokens_of(r, 3) == rt);
    lemma_parse_term_tokens(r, toks, i + al + 1);
    lemma_expr_rest_step(toks, i + al, l);
    assert(parse_expr_rest_spec(toks, i + al, l) == parse_expr_rest_spec(toks, i + k, e));
}

/// Parsing a term over the token sequence of a term-level tree, with no
/// `* / %` right after it, rebuilds exactly that tree.
proof fn lemma_parse_term_tokens(e: Expression, toks: Seq<Token>, i: int)
    requires
        wf(e),
        0 <= i,
        i + tokens_of(e, 3).len() <= toks.len(),
        toks.subrange(i, i + tokens_of(e, 3).len()) == tokens_of(e, 3),
        i + tokens_of(e, 3).len() < toks.len() ==> !is_mul_op(toks[i + tokens_of(e, 3).len()]),
    ensures
        parse_term_spec(toks, i) == Ok::<(Expression, int), Seq<char>>((
            e,
            i + tokens_of(e, 3).len(),
        )),
    decreases esize(e), rank_t(e),
{
    let k = tokens_of(e, 3).len() as int;
    lemma_parse_term_tokens_gen(e, toks, i);
    lemma_term_rest_stop(toks, i + k, e);
}

/// Parsing a term from the start of the token sequence of a tree first
/// rebuilds that tree, then goes on folding from its end.
proof fn lemma_parse_term_tokens_gen(e: Expression, toks: Seq<Token>, i: int)
    requires
        wf(e),
        0 <= i,
        i + tokens_of(e, 3).len() <= toks.len(),
        toks.subrange(i, i + tokens_of(e, 3).len()) == tokens_of(e, 3),
    ensures
        parse_term_spec(toks, i) == parse_term_rest_spec(toks, i + tokens_of(e, 3).len(), e),
    decreases esize(e), rank_tg(e),
{
    let tk = tokens_of(e, 3);
    let k = tk.len() as int;
    match e {
        Expression::Multiplication(l, r) => {
            lemma_parse_term_muldiv(e, *l, *r, Token::Times, toks, i);
        },
        Expression::Division(l, r) => {
            lemma_parse_term_muldiv(e, *l, *r, Token::Divide, toks, i);
        },
        Expression::Remainder(l, r) => {
            lemma_parse_term_muldiv(e, *l, *r, Token::Modulo, toks, i);
        },
        _ => {
            assert(tokens_of(e, 4) == tk);
            lemma_parse_factor_tokens(e, 4, toks, i);
        },
    }
}

/// The term-level case of the fold claim: the left term, the operator, and
/// the right factor fold into exactly the node.
proof fn lemma_parse_term_muldiv(
    e: Expression,
    l: Expression,
    r: Expression,
    ot: Token,
    toks: Seq<Token>,
    i: int,
)
    requires
        wf(e),
        wf(l),
        wf(r),
        (e == Expression::Multiplication(Box::new(l), Box::new(r)) && ot == Token::Times) || (e
            == Expression::Division(Box::new(l), Box::new(r)) && ot == Token::Divide) || (e
            == Expression::Remainder(Box::new(l), Box::new(r)) && ot == Token::Modulo),
        esize(l) < esize(e),
        esize(r) < esize(e),
        tokens_of(e, 3) == tokens_of(l, 3) + seq![ot] + tokens_of(r, 4),
        0 <= i,
        i + tokens_of(e, 3).len() <= toks.len(),
        toks.subrange(i, i + tokens_of(e, 3).len()) == tokens_of(e, 3),
    ensures
        parse_term_spec(toks, i) == parse_term_rest_spec(toks, i + tokens_of(e, 3).len(), e),
    decreases esize(l) + esize(r), 0int,
{
    let tk = tokens_of(e, 3);
    let k = tk.len() as int;
    let lt = tokens_of(l, 3);
    let al = lt.len() as int;
    let rt = tokens_of(r, 4);
    assert(k == al + 1 + rt.len());
    assert(toks.subrange(i, i + al) =~= lt) by {
        assert forall|j: int| 0 <= j < al implies toks.subrange(i, i + al)[j] == lt[j] by {
            assert(toks.subrange(i, i + k)[j] == toks[i + j]);
        }
    }
    assert(toks.subrange(i, i + k)[al] == toks[i + al]);
    assert(toks[i + al] == ot);
    lemma_parse_term_tokens_gen(l, toks, i);
    assert(toks.subrange(i + al + 1, i + k) =~= rt) by {
        assert forall|j: int| 0 <= j < rt.len() implies toks.subrange(i + al + 1, i + k)[j]
            == rt[j] by {
            assert(toks.subrange(i, i + k)[al + 1 + j] == toks[i + al + 1 + j]);
        }
    }
    lemma_parse_factor_tokens(r, 4, toks, i + al + 1);
    lemma_term_rest_step(toks, i + al, l);
    assert(parse_term_rest_spec(toks, i + al, l) == parse_term_rest_spec(toks, i + k, e));
}

/// A number token that carries no negative value.
pub open spec fn token_nonneg(t: Token) -> bool {
    match t {
        Token::Number(v) => v >= 0,
        _ => true,
    }
}

/// A token sequence all of whose number tokens are non-negative, as the
/// tokenizer produces them.
pub open spec fn toks_nonneg(toks: Seq<Token>) -> bool {
    forall|j: int| 0 <= j < toks.len() ==> #[trigger] token_nonneg(toks[j])
}

/// Every token the tokenizer produces carries a non-negative number: a
/// minus sign is always its own token.
pub proof fn lemma_lex_nonneg(s: Seq<char>, i: int)
    requires
        0 <= i,
    ensures
        lex_spec(s, i) matches Ok(ts) ==> toks_nonneg(ts),
    decreases s.len() - i,
{
    if 0 <= i < s.len() {
        let c = s[i];
        if is_space(c) {
            lemma_lex_nonneg(s, i + 1);
        } else if c == '+' || c == '-' || c == '*' || c == '/' || c == '%' || c == '(' || c
            == ')' {
            lemma_lex_nonneg(s, i + 1);
            lex_cons_nonneg();
        } else if is_digit(c) {
            crate::lexer::lemma_run_end_bounds(s, i);
            crate::lexer::lemma_run_end_digits(s, i);
            let j = run_end(s, i);
            let v = digits_val(s.subrange(i, j));
            assert forall|m: int| 0 <= m < s.subrange(i, j).len() implies #[trigger] is_digit(
                s.subrange(i, j)[m],
            ) by {
                assert(is_digit(s[i + m]));
            }
            crate::lexer::lemma_digits_val_nonneg(s.subrange(i, j));
            if v <= i64::MAX {
                lemma_lex_nonneg(s, j);
                lex_cons_nonneg();
            }
        }
    }
}

/// Putting one non-negative token in front of a non-negative sequence
/// keeps the whole sequence non-negative.
proof fn lex_cons_nonneg()
    ensures
        forall|t: Token, rest: Seq<Token>|
            token_nonneg(t) && toks_nonneg(rest) ==> #[trigger] toks_nonneg((seq![t] + rest)),
{
    assert forall|t: Token, rest: Seq<Token>|
        token_nonneg(t) && toks_nonneg(rest) implies #[trigger] toks_nonneg(
        (seq![t] + rest),
    ) by {
        assert forall|j: int| 0 <= j < (seq![t] + rest).len() implies #[trigger] token_nonneg(
            (seq![t] + rest)[j],
        ) by {
            if j == 0 {
                assert((seq![t] + rest)[0] == t);
            } else {
                assert((seq![t] + rest)[j] == rest[j - 1]);
                assert(token_nonneg(rest[j - 1]));
            }
        }
    }
}

/// A parsed factor is well formed.
pub proof fn lemma_parse_factor_wf(toks: Seq<Token>, i: int)
    requires
        0 <= i,
        toks_nonneg(toks),
    ensures
        parse_factor_spec(toks, i) matches Ok(p) ==> wf(p.0),
    decreases toks.len() - i, 0int,
{
    if 0 <= i < toks.len() {
        assert(token_nonneg(toks[i]));
        match toks[i] {
            Token::Minus => lemma_parse_factor_wf(toks, i + 1),
            Token::LeftParen => lemma_parse_expr_wf(toks, i + 1),
            _ => {},
        }
    }
}

/// The fold over `* / %` keeps a well-formed accumulator well formed.
pub proof fn lemma_parse_term_rest_wf(toks: Seq<Token>, i: int, acc: Expression)
    requires
        0 <= i <= toks.len(),
        toks_nonneg(toks),
        wf(acc),
    ensures
        parse_term_rest_spec(toks, i, acc) matches Ok(p) ==> wf(p.0),
    decreases toks.len() - i, 1int,
{
    if 0 <= i < toks.len() && (toks[i] == Token::Times || toks[i] == Token::Divide || toks[i]
        == Token::Modulo) {
        lemma_parse_factor_wf(toks, i + 1);
        lemma_parse_factor_pos(toks, i + 1);
        match parse_factor_spec(toks, i + 1) {
            Ok(p) => {
                let node = if toks[i] == Token::Times {
                    Expression::Multiplication(Box::new(acc), Box::new(p.0))
                } else if toks[i] == Token::Divide {
                    Expression::Division(Box::new(acc), Box::new(p.0))
                } else {
                    Expression::Remainder(Box::new(acc), Box::new(p.0))
                };
                if i < p.1 <= toks.len() {
                    lemma_parse_term_rest_wf(toks, p.1, node);
                }
            },
            Err(m) => {},
        }
    }
}

/// A parsed term is well formed.
pub proof fn lemma_parse_term_wf(toks: Seq<Token>, i: int)
    requires
        0 <= i,
        toks_nonneg(toks),
    ensures
        parse_term_spec(toks, i) matches Ok(p) ==> wf(p.0),
    decreases toks.len() - i, 2int,
{
    lemma_parse_factor_wf(toks, i);
    lemma_parse_factor_pos(toks, i);
    match parse_factor_spec(toks, i) {
        Ok(p) => {
            if i <= p.1 <= toks.len() {
                lemma_parse_term_rest_wf(toks, p.1, p.0);
            }
        },
        Err(m) => {},
    }
}

/// The fold over `+ -` keeps a well-formed accumulator well formed.
pub proof fn lemma_parse_expr_rest_wf(toks: Seq<Token>, i: int, acc: Expression)
    requires
        0 <= i <= toks.len(),
        toks_nonneg(toks),
        wf(acc),
    ensures
        parse_expr_rest_spec(toks, i, acc) matches Ok(p) ==> wf(p.0),
    decreases toks.len() - i, 3int,
{
    if 0 <= i < toks.len() && (toks[i] == Token::Plus || toks[i] == Token::Minus) {
        lemma_parse_term_wf(toks, i + 1);
        lemma_parse_term_pos(toks, i + 1);
        match parse_term_spec(toks, i + 1) {
            Ok(p) => {
                let node = if toks[i] == Token::Plus {
                    Expression::Addition(Box::new(acc), Box::new(p.0))
                } else {
                    Expression::Subtraction(Box::new(acc), Box::new(p.0))
                };
                if i < p.1 <= toks.len() {
                    lemma_parse_expr_rest_wf(toks, p.1, node);
                }
            },
            Err(m) => {},
        }
    }
}

/// A parsed chain is well formed: its number leaves are never negative.
pub proof fn lemma_parse_expr_wf(toks: Seq<Token>, i: int)
    requires
        0 <= i,
        toks_nonneg(toks),
    ensures
        parse_expr_spec(toks, i) matches Ok(p) ==> wf(p.0),
    decreases toks.len() - i, 4int,
{
    lemma_parse_term_wf(toks, i);
    lemma_parse_term_pos(toks, i);
    match parse_term_spec(toks, i) {
        Ok(p) => {
            if i <= p.1 <= toks.len() {
                lemma_parse_expr_rest_wf(toks, p.1, p.0);
            }
        },
        Err(m) => {},
    }
}

/// The rendering of a well-formed tree lexes to exactly the tree's token
/// sequence, and parsing that sequence gives the tree back whole.
pub proof fn lemma_render_round_trip(e: Expression)
    requires
        wf(e),
    ensures
        lex_spec(render_spec(e, 0), 0) == Ok::<Seq<Token>, Seq<char>>(tokens_of(e, 0)),
        parse_expr_spec(tokens_of(e, 0), 0) == Ok::<(Expression, int), Seq<char>>((
            e,
            tokens_of(e, 0).len() as int,
        )),
{
    let s = render_spec(e, 0);
    assert(s.subrange(0, s.len() as int) =~= s);
    lemma_lex_render(e, 0, s, 0);
    assert(lex_spec(s, s.len() as int) == Ok::<Seq<Token>, Seq<char>>(Seq::empty()));
    assert(tokens_of(e, 0) + Seq::<Token>::empty() =~= tokens_of(e, 0));
    let tk = tokens_of(e, 0);
    assert(tokens_of(e, 1) == tk);
    assert(tk.subrange(0, tk.len() as int) =~= tk);
    lemma_parse_expr_tokens(e, tk, 0);
}

/// The canonical round trip: whenever an input lexes and parses to a tree,
/// rendering that tree lexes and parses again, the tree that comes back is
/// the same one, and so it evaluates identically.
pub proof fn lemma_canonical_round_trip(input: Seq<char>, toks: Seq<Token>, e: Expression, j: int)
    requires
        lex_spec(input, 0) == Ok::<Seq<Token>, Seq<char>>(toks),
        parse_expr_spec(toks, 0) == Ok::<(Expression, int), Seq<char>>((e, j)),
    ensures
        wf(e),
        lex_spec(render_spec(e, 0), 0) == Ok::<Seq<Token>, Seq<char>>(tokens_of(e, 0)),
        parse_expr_spec(tokens_of(e, 0), 0) == Ok::<(Expression, int), Seq<char>>((
            e,
            tokens_of(e, 0).len() as int,
        )),
        parse_expr_spec(tokens_of(e, 0), 0) matches Ok(q) && eval_spec(q.0) == eval_spec(e),
{
    lemma_lex_nonneg(input, 0);
    lemma_parse_expr_wf(toks, 0);
    lemma_render_round_trip(e);
}

} // verus!
