//! Laws on division by an operand that evaluates to zero.
use vstd::prelude::*;
use crate::evaluate::lemma_error_persists;
use crate::flat::{is_literal, lemma_read_literal, literal_value};
use crate::groups::{after_group, lemma_group_in_context};
use crate::machine::{evaluation, lemma_resume_error, operator_of, run, Frame, MachineState};
use crate::operator::{EvalError, Operator};

verus! {

/// A group that evaluates to zero, taken as the divisor of a pending
/// division, makes the whole expression fail with `DivisionByZero`, whatever
/// follows it.
pub proof fn lemma_zero_group_divisor(x: Seq<char>, s: Seq<char>, y: Seq<char>, acc: i64)
    requires
        run(x) is Ok,
        run(x)->Ok_0.digits is None,
        run(x)->Ok_0.groups.len() > 0,
        run(x)->Ok_0.groups.last() == Frame::Pending(acc, Operator::Divide),
        s.len() > 0,
        evaluation(s) == Ok::<i64, EvalError>(0),
    ensures
        evaluation(x + seq!['e'] + s + seq!['f'] + y) == Err::<i64, EvalError>(
            EvalError::DivisionByZero,
        ),
{
    lemma_group_in_context(x, s, y, 0);
    assert(after_group(run(x)->Ok_0, 0) == Err::<MachineState, EvalError>(
        EvalError::DivisionByZero,
    ));
    lemma_resume_error(EvalError::DivisionByZero, y);
}

/// A literal of value zero, taken as the divisor of a pending division and
/// ending where an operator, a group close or the end of the input comes,
/// makes the whole expression fail with `DivisionByZero`, whatever follows.
pub proof fn lemma_zero_literal_divisor(x: Seq<char>, d: Seq<char>, y: Seq<char>, acc: i64)
    requires
        run(x) is Ok,
        run(x)->Ok_0.digits is None,
        run(x)->Ok_0.groups.len() > 0,
        run(x)->Ok_0.groups.last() == Frame::Pending(acc, Operator::Divide),
        is_literal(d),
        literal_value(d) == 0,
        y.len() == 0 || operator_of(y[0]) is Some || y[0] == 'f',
    ensures
        evaluation(x + d + y) == Err::<i64, EvalError>(EvalError::DivisionByZero),
{
    let m = run(x)->Ok_0;
    lemma_read_literal(x, d, m);
    let w = x + d + y;
    if y.len() == 0 {
        assert(w =~= x + d);
    } else {
        let k: int = (x + d).len() as int + 1;
        assert(w.take(k).drop_last() =~= x + d);
        assert(w.take(k).last() == y[0]);
        lemma_error_persists(w, k, EvalError::DivisionByZero);
    }
}

} // verus!
