use vstd::prelude::*;

use crate::parser::Expression;

verus! {

/// The mathematical value of an expression.
pub open spec fn value(e: Expression) -> int
    decreases e,
{
    match e {
        Expression::Constant(n) => n as int,
        Expression::Sum(l, r) => value(*l) + value(*r),
        Expression::Multiply(l, r) => value(*l) * value(*r),
    }
}

/// Whether every subexpression has a value that fits in an `i64`.
pub open spec fn fits(e: Expression) -> bool
    decreases e,
{
    &&& i64::MIN <= value(e) <= i64::MAX
    &&& match e {
        Expression::Constant(_) => true,
        Expression::Sum(l, r) => fits(*l) && fits(*r),
        Expression::Multiply(l, r) => fits(*l) && fits(*r),
    }
}

/// Evaluates an expression; `None` when some subexpression overflows an `i64`.
pub fn eval(e: &Expression) -> (r: Option<i64>)
    ensures
        r == if fits(*e) {
            Some(value(*e) as i64)
        } else {
            None::<i64>
        },
    decreases e,
{
    match e {
        Expression::Constant(n) => Some(*n),
        Expression::Sum(l, r) => match (eval(l), eval(r)) {
            (Some(a), Some(b)) => a.checked_add(b),
            _ => None,
        },
        Expression::Multiply(l, r) => match (eval(l), eval(r)) {
            (Some(a), Some(b)) => a.checked_mul(b),
            _ => None,
        },
    }
}

} // verus!
