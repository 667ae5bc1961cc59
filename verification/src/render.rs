//! The canonical infix renderer.
//!
//! Every node is rendered under a minimum precedence demanded by its context
//! and wraps itself in parentheses exactly when its own precedence is below
//! that threshold. A binary operator passes its own precedence to its left
//! child and one more to its right child, which keeps left-associative
//! chains bare and parenthesizes only a right child of equal precedence.

use vstd::prelude::*;
use vstd::string::StringExecFns;
use crate::ast::Expression;
use crate::digits::int_seq;
use crate::digits::i64_to_string;
use crate::digits::push_char;

verus! {

/// `s` wrapped in parentheses.
pub open spec fn paren(s: Seq<char>) -> Seq<char> {
    seq!['('] + s + seq![')']
}

/// The infix text of `e` when the context demands at least precedence `p`:
/// addition and subtraction have precedence 1, multiplication, division and
/// remainder 3, negation 5, and a number is never parenthesized.
pub open spec fn render_spec(e: Expression, p: int) -> Seq<char>
    decreases e,
{
    match e {
        Expression::Number(n) => int_seq(n as int),
        Expression::Negation(x) => {
            let s = seq!['-'] + render_spec(*x, 5);
            if p > 5 {
                paren(s)
            } else {
                s
            }
        },
        Expression::Addition(l, r) => {
            let s = render_spec(*l, 1) + seq![' ', '+', ' '] + render_spec(*r, 2);
            if p > 1 {
                paren(s)
            } else {
                s
            }
        },
        Expression::Subtraction(l, r) => {
            let s = render_spec(*l, 1) + seq![' ', '-', ' '] + render_spec(*r, 2);
            if p > 1 {
                paren(s)
            } else {
                s
            }
        },
        Expression::Multiplication(l, r) => {
            let s = render_spec(*l, 3) + seq![' ', '*', ' '] + render_spec(*r, 4);
            if p > 3 {
                paren(s)
            } else {
                s
            }
        },
        Expression::Division(l, r) => {
            let s = render_spec(*l, 3) + seq![' ', '/', ' '] + render_spec(*r, 4);
            if p > 3 {
                paren(s)
            } else {
                s
            }
        },
        Expression::Remainder(l, r) => {
            let s = render_spec(*l, 3) + seq![' ', '%', ' '] + render_spec(*r, 4);
            if p > 3 {
                paren(s)
            } else {
                s
            }
        },
    }
}

impl Expression {
    /// Renders `self` as canonical infix text under the minimum context
    /// precedence `parent_prec`.
    pub fn to_string_prec(&self, parent_prec: u8) -> (s: String)
        ensures
            s@ == render_spec(*self, parent_prec as int),
        decreases *self,
    {
        match self {
            Expression::Number(n) => i64_to_string(*n),
            Expression::Negation(expr) => {
                let mut s = String::new();
                let wrap: bool = parent_prec > 5;
                if wrap {
                    push_char(&mut s, '(');
                }
                push_char(&mut s, '-');
                let sub = expr.to_string_prec(5);
                s.append(sub.as_str());
                if wrap {
                    push_char(&mut s, ')');
                }
                proof {
                    assert(s@ =~= render_spec(*self, parent_prec as int));
                }
                s
            },
            Expression::Addition(left, right) => {
                let ls = left.to_string_prec(1);
                let rs = right.to_string_prec(2);
                let s = join_binary(&ls, '+', &rs, parent_prec > 1);
                proof {
                    assert(s@ =~= render_spec(*self, parent_prec as int));
                }
                s
            },
            Expression::Subtraction(left, right) => {
                let ls = left.to_string_prec(1);
                let rs = right.to_string_prec(2);
                let s = join_binary(&ls, '-', &rs, parent_prec > 1);
                proof {
                    assert(s@ =~= render_spec(*self, parent_prec as int));
                }
                s
            },
            Expression::Multiplication(left, right) => {
                let ls = left.to_string_prec(3);
                let rs = right.to_string_prec(4);
                let s = join_binary(&ls, '*', &rs, parent_prec > 3);
                proof {
                    assert(s@ =~= render_spec(*self, parent_prec as int));
                }
                s
            },
            Expression::Division(left, right) => {
                let ls = left.to_string_prec(3);
                let rs = right.to_string_prec(4);
                let s = join_binary(&ls, '/', &rs, parent_prec > 3);
                proof {
                    assert(s@ =~= render_spec(*self, parent_prec as int));
                }
                s
            },
            Expression::Remainder(left, right) => {
                let ls = left.to_string_prec(3);
                let rs = right.to_string_prec(4);
                let s = join_binary(&ls, '%', &rs, parent_prec > 3);
                proof {
                    assert(s@ =~= render_spec(*self, parent_prec as int));
                }
                s
            },
        }
    }
}

/// Joins two rendered operands around an operator, with a space on each
/// side, and wraps the whole in parentheses when `wrap` holds.
fn join_binary(ls: &String, op: char, rs: &String, wrap: bool) -> (s: String)
    ensures
        s@ == {
            let inner = ls@ + seq![' ', op, ' '] + rs@;
            if wrap {
                paren(inner)
            } else {
                inner
            }
        },
{
    let mut s = String::new();
    if wrap {
        push_char(&mut s, '(');
    }
    s.append(ls.as_str());
    push_char(&mut s, ' ');
    push_char(&mut s, op);
    push_char(&mut s, ' ');
    s.append(rs.as_str());
    if wrap {
        push_char(&mut s, ')');
    }
    proof {
        let inner = ls@ + seq![' ', op, ' '] + rs@;
        if wrap {
            assert(s@ =~= paren(inner));
        } else {
            assert(s@ =~= inner);
        }
    }
    s
}

} // verus!
