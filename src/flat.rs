//! Laws of the evaluator over expressions without groups.
use vstd::prelude::*;
use crate::evaluate::lemma_error_persists;
use crate::machine::{
    digit_value, evaluation, flush, is_digit, operator_of, run, Frame, MachineState,
};
use crate::operator::{apply_spec, EvalError, Operator};

verus! {

/// A literal: a non-empty run of decimal digits.
pub open spec fn is_literal(d: Seq<char>) -> bool {
    &&& d.len() > 0
    &&& forall|i: int| 0 <= i < d.len() ==> is_digit(#[trigger] d[i])
}

/// The decimal value of a run of digits.
pub open spec fn literal_value(d: Seq<char>) -> int
    decreases d.len(),
{
    if d.len() == 0 {
        0
    } else {
        literal_value(d.drop_last()) * 10 + digit_value(d.last())
    }
}

/// A literal as an operand, when its value fits in `i64`.
pub open spec fn literal_operand(d: Seq<char>) -> Result<i64, EvalError> {
    if literal_value(d) <= i64::MAX {
        Ok(literal_value(d) as i64)
    } else {
        Err(EvalError::IntegerOverflow)
    }
}

/// The letter that stands for `op`.
pub open spec fn letter_of(op: Operator) -> char {
    match op {
        Operator::Add => 'a',
        Operator::Subtract => 'b',
        Operator::Multiply => 'c',
        Operator::Divide => 'd',
    }
}

/// The text of an expression without groups: the literal `first`, then each
/// operator of `rest` followed by its literal.
pub open spec fn flat_text(first: Seq<char>, rest: Seq<(Operator, Seq<char>)>) -> Seq<char>
    decreases rest.len(),
{
    if rest.len() == 0 {
        first
    } else {
        flat_text(first, rest.drop_last()).push(letter_of(rest.last().0)) + rest.last().1
    }
}

/// Strict left-to-right fold of the operands: the value so far is the left
/// operand of each operator, the next literal its right one.
pub open spec fn left_fold(first: Seq<char>, rest: Seq<(Operator, Seq<char>)>) -> Result<
    i64,
    EvalError,
>
    decreases rest.len(),
{
    if rest.len() == 0 {
        literal_operand(first)
    } else {
        match left_fold(first, rest.drop_last()) {
            Ok(acc) => match literal_operand(rest.last().1) {
                Ok(v) => apply_spec(rest.last().0, v, acc),
                Err(e) => Err(e),
            },
            Err(e) => Err(e),
        }
    }
}

spec fn all_literals(rest: Seq<(Operator, Seq<char>)>) -> bool {
    forall|i: int| 0 <= i < rest.len() ==> is_literal(#[trigger] rest[i].1)
}

/// The state after reading a flat expression, before the last literal is committed.
spec fn flat_state(first: Seq<char>, rest: Seq<(Operator, Seq<char>)>) -> Result<
    MachineState,
    EvalError,
> {
    if rest.len() == 0 {
        match literal_operand(first) {
            Ok(v) => Ok(MachineState { groups: seq![Frame::Empty], digits: Some(v) }),
            Err(e) => Err(e),
        }
    } else {
        match left_fold(first, rest.drop_last()) {
            Ok(acc) => match literal_operand(rest.last().1) {
                Ok(v) => Ok(
                    MachineState {
                        groups: seq![Frame::Pending(acc, rest.last().0)],
                        digits: Some(v),
                    },
                ),
                Err(e) => Err(e),
            },
            Err(e) => Err(e),
        }
    }
}

proof fn lemma_literal_value_grows(d: Seq<char>)
    requires
        d.len() > 0,
        forall|i: int| 0 <= i < d.len() ==> is_digit(#[trigger] d[i]),
    ensures
        0 <= literal_value(d.drop_last()) <= literal_value(d),
    decreases d.len(),
{
    if d.len() > 1 {
        lemma_literal_value_grows(d.drop_last());
    }
    assert(0 <= literal_value(d.drop_last()));
}

/// Reading a literal from a state that awaits an operand stores its value, or
/// fails with an overflow when it does not fit in `i64`.
pub proof fn lemma_read_literal(s: Seq<char>, d: Seq<char>, m: MachineState)
    requires
        run(s) == Ok::<MachineState, EvalError>(m),
        m.groups.len() > 0,
        !(m.groups.last() is Value),
        m.digits is None,
        is_literal(d),
    ensures
        run(s + d) == match literal_operand(d) {
            Ok(v) => Ok(MachineState { groups: m.groups, digits: Some(v) }),
            Err(e) => Err::<MachineState, EvalError>(e),
        },
    decreases d.len(),
{
    assert((s + d).drop_last() =~= s + d.drop_last());
    assert(d[d.len() - 1] == d.last());
    lemma_literal_value_grows(d);
    if d.len() == 1 {
        assert(s + d.drop_last() =~= s);
        assert(literal_value(d.drop_last()) == 0);
    } else {
        let p = d.drop_last();
        assert forall|i: int| 0 <= i < p.len() implies is_digit(#[trigger] p[i]) by {
            assert(p[i] == d[i]);
        }
        lemma_read_literal(s, p, m);
    }
}

proof fn lemma_flat_state(first: Seq<char>, rest: Seq<(Operator, Seq<char>)>)
    requires
        is_literal(first),
        all_literals(rest),
    ensures
        run(flat_text(first, rest)) == flat_state(first, rest),
    decreases rest.len(),
{
    let init = MachineState { groups: seq![Frame::Empty], digits: None };
    assert(run(Seq::<char>::empty()) == Ok::<MachineState, EvalError>(init)) by {
        assert(init.groups =~= seq![Frame::Empty]);
    }
    if rest.len() == 0 {
        assert(Seq::<char>::empty() + first =~= first);
        lemma_read_literal(Seq::<char>::empty(), first, init);
    } else {
        let prev = rest.drop_last();
        let (op, d) = rest.last();
        assert(rest[rest.len() - 1] == rest.last());
        assert(all_literals(prev)) by {
            assert forall|i: int| 0 <= i < prev.len() implies is_literal(#[trigger] prev[i].1) by {
                assert(prev[i] == rest[i]);
            }
        }
        lemma_flat_state(first, prev);
        let t = flat_text(first, prev);
        let u = t.push(letter_of(op));
        assert(u.drop_last() =~= t);
        assert(operator_of(letter_of(op)) == Some(op));
        match flat_state(first, prev) {
            Ok(m) => {
                let committed = match left_fold(first, prev) {
                    Ok(x) => Ok(MachineState { groups: seq![Frame::Value(x)], digits: None }),
                    Err(e) => Err::<MachineState, EvalError>(e),
                };
                assert(flush(m) == committed) by {
                    if prev.len() > 0 {
                        assert(prev[prev.len() - 1] == prev.last());
                    }
                    if let Ok(mf) = flush(m) {
                        assert(mf.groups =~= committed.unwrap().groups);
                    }
                }
                match left_fold(first, prev) {
                    Ok(acc) => {
                        let m2 = MachineState {
                            groups: seq![Frame::Pending(acc, op)],
                            digits: None,
                        };
                        assert(seq![Frame::Value(acc)].update(0, Frame::Pending(acc, op))
                            =~= m2.groups);
                        assert(run(u) == Ok::<MachineState, EvalError>(m2));
                        lemma_read_literal(u, d, m2);
                    },
                    Err(e) => {
                        assert(run(u) == Err::<MachineState, EvalError>(e));
                        let w = u + d;
                        assert(w.take(u.len() as int) =~= u);
                        lemma_error_persists(w, u.len() as int, e);
                    },
                }
            },
            Err(e) => {
                assert(run(u) == Err::<MachineState, EvalError>(e));
                let w = u + d;
                assert(w.take(u.len() as int) =~= u);
                lemma_error_persists(w, u.len() as int, e);
            },
        }
    }
}

/// An expression without groups evaluates to the strict left-to-right fold of
/// its operands, with no precedence among the operators.
pub proof fn lemma_flat_left_to_right(first: Seq<char>, rest: Seq<(Operator, Seq<char>)>)
    requires
        is_literal(first),
        forall|i: int| 0 <= i < rest.len() ==> is_literal(#[trigger] rest[i].1),
    ensures
        evaluation(flat_text(first, rest)) == left_fold(first, rest),
{
    lemma_flat_state(first, rest);
    if rest.len() > 0 {
        assert(rest[rest.len() - 1] == rest.last());
    }
}

proof fn lemma_fold_error_persists(
    first: Seq<char>,
    rest: Seq<(Operator, Seq<char>)>,
    k: int,
    e: EvalError,
)
    requires
        0 <= k <= rest.len(),
        left_fold(first, rest.take(k)) == Err::<i64, EvalError>(e),
    ensures
        left_fold(first, rest) == Err::<i64, EvalError>(e),
    decreases rest.len() - k,
{
    if k < rest.len() {
        assert(rest.take(k + 1).drop_last() =~= rest.take(k));
        lemma_fold_error_persists(first, rest, k + 1, e);
    } else {
        assert(rest.take(k) =~= rest);
    }
}

/// A division by a literal of value zero makes an expression without groups
/// fail; when nothing before it has failed, it fails with `DivisionByZero`.
pub proof fn lemma_flat_division_by_zero(
    first: Seq<char>,
    rest: Seq<(Operator, Seq<char>)>,
    k: int,
)
    requires
        is_literal(first),
        forall|i: int| 0 <= i < rest.len() ==> is_literal(#[trigger] rest[i].1),
        0 <= k < rest.len(),
        rest[k].0 == Operator::Divide,
        literal_value(rest[k].1) == 0,
    ensures
        evaluation(flat_text(first, rest)) is Err,
        left_fold(first, rest.take(k)) is Ok ==> evaluation(flat_text(first, rest)) == Err::<
            i64,
            EvalError,
        >(EvalError::DivisionByZero),
{
    lemma_flat_left_to_right(first, rest);
    let t = rest.take(k + 1);
    assert(t.drop_last() =~= rest.take(k));
    assert(t[t.len() - 1] == rest[k]);
    assert(left_fold(first, t) is Err);
    lemma_fold_error_persists(first, rest, k + 1, left_fold(first, t)->Err_0);
}

} // verus!
