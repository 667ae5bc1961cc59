//! The indented tree diagram.
//!
//! The root label is printed bare; every other node is printed behind its
//! accumulated indent and a branch glyph, one glyph for the last child of a
//! node and another for the rest, and the indent grows by a blank
//! continuation under a last child and a vertical bar under any other.

use vstd::prelude::*;
use vstd::string::StringExecFns;
use crate::ast::Expression;
use crate::digits::int_seq;
use crate::digits::i64_to_string;
use crate::digits::push_char;

verus! {

/// The one-line label of a node: the operator symbol, or the number itself.
pub open spec fn node_label(e: Expression) -> Seq<char> {
    match e {
        Expression::Number(n) => int_seq(n as int),
        Expression::Addition(l, r) => seq!['+'],
        Expression::Subtraction(l, r) => seq!['-'],
        Expression::Multiplication(l, r) => seq!['*'],
        Expression::Division(l, r) => seq!['/'],
        Expression::Remainder(l, r) => seq!['%'],
        Expression::Negation(x) => seq!['-'],
    }
}

/// The diagram of the subtree at `e`, each line ended by a newline: its own
/// line under the given indent, then the lines of its children.
pub open spec fn tree_seq(e: Expression, prefix: Seq<char>, is_last: bool) -> Seq<char>
    decreases e,
{
    let line = if prefix.len() == 0 {
        node_label(e) + seq!['\n']
    } else {
        prefix + seq![if is_last { '└' } else { '├' }, ' '] + node_label(e) + seq!['\n']
    };
    let cp = prefix + (if is_last { seq![' ', ' '] } else { seq!['│', ' '] });
    match e {
        Expression::Number(n) => line,
        Expression::Negation(x) => line + tree_seq(*x, cp, true),
        Expression::Addition(l, r) => line + tree_seq(*l, cp, false) + tree_seq(*r, cp, true),
        Expression::Subtraction(l, r) => line + tree_seq(*l, cp, false) + tree_seq(*r, cp, true),
        Expression::Multiplication(l, r) => line + tree_seq(*l, cp, false) + tree_seq(
            *r,
            cp,
            true,
        ),
        Expression::Division(l, r) => line + tree_seq(*l, cp, false) + tree_seq(*r, cp, true),
        Expression::Remainder(l, r) => line + tree_seq(*l, cp, false) + tree_seq(*r, cp, true),
    }
}

impl Expression {
    /// The label of this node as a string.
    fn label_string(&self) -> (l: String)
        ensures
            l@ == node_label(*self),
    {
        match self {
            Expression::Number(n) => i64_to_string(*n),
            Expression::Addition(l, r) => one_char_string('+'),
            Expression::Subtraction(l, r) => one_char_string('-'),
            Expression::Multiplication(l, r) => one_char_string('*'),
            Expression::Division(l, r) => one_char_string('/'),
            Expression::Remainder(l, r) => one_char_string('%'),
            Expression::Negation(x) => one_char_string('-'),
        }
    }

    /// The whole diagram, with the root printed bare.
    pub fn print_tree(&self) -> (s: String)
        ensures
            s@ == tree_seq(*self, Seq::<char>::empty(), true),
    {
        let empty = String::new();
        self.print_tree_recursive(empty.as_str(), true)
    }

    /// The diagram of this subtree behind the indent `prefix`.
    pub fn print_tree_recursive(&self, prefix: &str, is_last: bool) -> (s: String)
        ensures
            s@ == tree_seq(*self, prefix@, is_last),
        decreases *self,
    {
        let mut s = String::new();
        if prefix.unicode_len() > 0 {
            s.append(prefix);
            push_char(&mut s, if is_last { '└' } else { '├' });
            push_char(&mut s, ' ');
        }
        let lab = self.label_string();
        s.append(lab.as_str());
        push_char(&mut s, '\n');
        proof {
            assert(s@ =~= if prefix@.len() == 0 {
                node_label(*self) + seq!['\n']
            } else {
                prefix@ + seq![if is_last { '└' } else { '├' }, ' '] + node_label(*self) + seq![
                    '\n',
                ]
            });
        }
        let mut cp = prefix.to_owned();
        if is_last {
            push_char(&mut cp, ' ');
            push_char(&mut cp, ' ');
        } else {
            push_char(&mut cp, '│');
            push_char(&mut cp, ' ');
        }
        proof {
            assert(cp@ =~= prefix@ + (if is_last { seq![' ', ' '] } else { seq!['│', ' '] }));
        }
        match self {
            Expression::Number(n) => {},
            Expression::Negation(x) => {
                let sub = x.print_tree_recursive(cp.as_str(), true);
                s.append(sub.as_str());
            },
            Expression::Addition(l, r) => {
                let sl = l.print_tree_recursive(cp.as_str(), false);
                s.append(sl.as_str());
                let sr = r.print_tree_recursive(cp.as_str(), true);
                s.append(sr.as_str());
            },
            Expression::Subtraction(l, r) => {
                let sl = l.print_tree_recursive(cp.as_str(), false);
                s.append(sl.as_str());
                let sr = r.print_tree_recursive(cp.as_str(), true);
                s.append(sr.as_str());
            },
            Expression::Multiplication(l, r) => {
                let sl = l.print_tree_recursive(cp.as_str(), false);
                s.append(sl.as_str());
                let sr = r.print_tree_recursive(cp.as_str(), true);
                s.append(sr.as_str());
            },
            Expression::Division(l, r) => {
                let sl = l.print_tree_recursive(cp.as_str(), false);
                s.append(sl.as_str());
                let sr = r.print_tree_recursive(cp.as_str(), true);
                s.append(sr.as_str());
            },
            Expression::Remainder(l, r) => {
                let sl = l.print_tree_recursive(cp.as_str(), false);
                s.append(sl.as_str());
                let sr = r.print_tree_recursive(cp.as_str(), true);
                s.append(sr.as_str());
            },
        }
        proof {
            assert(s@ =~= tree_seq(*self, prefix@, is_last));
        }
        s
    }
}

/// A string of the single character `c`.
fn one_char_string(c: char) -> (s: String)
    ensures
        s@ == seq![c],
{
    let mut s = String::new();
    push_char(&mut s, c);
    proof {
        assert(s@ =~= seq![c]);
    }
    s
}

} // verus!
