//! The four binary operators and the errors that evaluation can report.
use vstd::prelude::*;

verus! {

/// A binary operator of the notation.
#[derive(Debug, Clone, Copy, PartialEq, Eq, Structural)]
pub enum Operator {
    Add,
    Subtract,
    Multiply,
    Divide,
}

/// Why an expression was rejected.
#[derive(Debug, Clone, Copy, PartialEq, Eq, Structural)]
pub enum EvalError {
    /// A character outside `0`-`9` and `a`-`f`.
    InvalidToken,
    /// A close with no open group, an open group left at the end of the
    /// input, or a close where the group holds no complete value.
    MalformedGroup,
    /// An operator with no operand before it, or an input that ends with an
    /// operator.
    MissingOperand,
    /// Two operands next to each other: digits or a group right after a
    /// closed group.
    MissingOperator,
    /// A division whose divisor is zero.
    DivisionByZero,
    /// A literal or an intermediate result outside the range of `i64`.
    IntegerOverflow,
}

/// Quotient of `b` by `a`, truncated toward zero.
pub open spec fn truncated_quotient(b: int, a: int) -> int
    recommends
        a != 0,
{
    if b == 0 {
        0
    } else if b > 0 && a > 0 {
        b / a
    } else if b < 0 && a < 0 {
        (-b) / (-a)
    } else if b < 0 {
        -((-b) / a)
    } else {
        -(b / (-a))
    }
}

/// The exact value of `op` applied with `b` on the left and `a` on the right.
pub open spec fn exact_result(op: Operator, a: int, b: int) -> int
    recommends
        op == Operator::Divide ==> a != 0,
{
    match op {
        Operator::Add => b + a,
        Operator::Subtract => b - a,
        Operator::Multiply => b * a,
        Operator::Divide => truncated_quotient(b, a),
    }
}

pub open spec fn fits_i64(v: int) -> bool {
    i64::MIN <= v <= i64::MAX
}

/// Outcome of applying `op` to the left operand `b` and the right operand `a`.
pub open spec fn apply_spec(op: Operator, a: i64, b: i64) -> Result<i64, EvalError> {
    if op == Operator::Divide && a == 0 {
        Err(EvalError::DivisionByZero)
    } else if fits_i64(exact_result(op, a as int, b as int)) {
        Ok(exact_result(op, a as int, b as int) as i64)
    } else {
        Err(EvalError::IntegerOverflow)
    }
}

/// Applies `op` with `b` as the left operand (the value so far) and `a` as the
/// right one (the operand just read): `b + a`, `b - a`, `b * a`, or `b / a`
/// truncated toward zero.
pub fn apply_operator(op: Operator, a: i64, b: i64) -> (r: Result<i64, EvalError>)
    ensures
        r == apply_spec(op, a, b),
        op == Operator::Divide && a == 0 ==> r == Err::<i64, EvalError>(EvalError::DivisionByZero),
{
    let v = match op {
        Operator::Add => b.checked_add(a),
        Operator::Subtract => b.checked_sub(a),
        Operator::Multiply => b.checked_mul(a),
        Operator::Divide => {
            if a == 0 {
                return Err(EvalError::DivisionByZero);
            }
            b.checked_div(a)
        },
    };
    match v {
        Some(x) => Ok(x),
        None => Err(EvalError::IntegerOverflow),
    }
}

} // verus!
