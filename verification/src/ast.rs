//! The expression tree and its checked evaluator.

use vstd::prelude::*;

verus! {

/// One node of the expression tree. `Number` is the only leaf; every other
/// variant owns its operands exclusively, so a value of this type is always
/// a finite tree.
#[derive(Debug)]
pub enum Expression {
    Number(i64),
    Addition(Box<Expression>, Box<Expression>),
    Subtraction(Box<Expression>, Box<Expression>),
    Multiplication(Box<Expression>, Box<Expression>),
    Division(Box<Expression>, Box<Expression>),
    Remainder(Box<Expression>, Box<Expression>),
    Negation(Box<Expression>),
}

/// The value of an expression under checked 64-bit arithmetic: `None` on
/// overflow and on division or remainder by zero, and the left operand's
/// failure wins over the right one's.
pub open spec fn eval_spec(e: Expression) -> Option<i64>
    decreases e,
{
    match e {
        Expression::Number(n) => Some(n),
        Expression::Addition(l, r) => match (eval_spec(*l), eval_spec(*r)) {
            (Some(a), Some(b)) => a.checked_add(b),
            _ => None,
        },
        Expression::Subtraction(l, r) => match (eval_spec(*l), eval_spec(*r)) {
            (Some(a), Some(b)) => a.checked_sub(b),
            _ => None,
        },
        Expression::Multiplication(l, r) => match (eval_spec(*l), eval_spec(*r)) {
            (Some(a), Some(b)) => a.checked_mul(b),
            _ => None,
        },
        Expression::Division(l, r) => match (eval_spec(*l), eval_spec(*r)) {
            (Some(a), Some(b)) => if b == 0 { None } else { a.checked_div(b) },
            _ => None,
        },
        Expression::Remainder(l, r) => match (eval_spec(*l), eval_spec(*r)) {
            (Some(a), Some(b)) => if b == 0 { None } else { a.checked_rem(b) },
            _ => None,
        },
        Expression::Negation(x) => match eval_spec(*x) {
            Some(v) => if v == i64::MIN { None } else { Some((-v) as i64) },
            None => None,
        },
    }
}

impl Expression {
    /// Post-order evaluation into a single checked 64-bit result.
    pub fn evaluate(&self) -> (r: Option<i64>)
        ensures
            r == eval_spec(*self),
        decreases *self,
    {
        match self {
            Expression::Number(n) => Some(*n),
            Expression::Addition(left, right) => {
                let v_left = left.evaluate()?;
                let v_right = right.evaluate()?;
                v_left.checked_add(v_right)
            },
            Expression::Subtraction(left, right) => {
                let v_left = left.evaluate()?;
                let v_right = right.evaluate()?;
                v_left.checked_sub(v_right)
            },
            Expression::Multiplication(left, right) => {
                let v_left = left.evaluate()?;
                let v_right = right.evaluate()?;
                v_left.checked_mul(v_right)
            },
            Expression::Division(left, right) => {
                let v_left = left.evaluate()?;
                let v_right = right.evaluate()?;
                if v_right == 0 {
                    return None;
                }
                v_left.checked_div(v_right)
            },
            Expression::Remainder(left, right) => {
                let v_left = left.evaluate()?;
                let v_right = right.evaluate()?;
                if v_right == 0 {
                    return None;
                }
                v_left.checked_rem(v_right)
            },
            Expression::Negation(expr) => {
                let v = expr.evaluate()?;
                if v == i64::MIN {
                    None
                } else {
                    Some(-v)
                }
            },
        }
    }
}

} // verus!
