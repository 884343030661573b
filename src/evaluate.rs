//! Evaluation of a whole expression.
use vstd::prelude::*;
use crate::machine::{evaluation, run, Evaluator, MachineState};
use crate::operator::EvalError;

verus! {

/// Once reading a prefix of `s` has failed, reading all of `s` fails the same way.
pub proof fn lemma_error_persists(s: Seq<char>, k: int, e: EvalError)
    requires
        0 <= k <= s.len(),
        run(s.take(k)) == Err::<MachineState, EvalError>(e),
    ensures
        run(s) == Err::<MachineState, EvalError>(e),
    decreases s.len() - k,
{
    if k < s.len() {
        assert(s.take(k + 1).drop_last() =~= s.take(k));
        lemma_error_persists(s, k + 1, e);
    } else {
        assert(s.take(k) =~= s);
    }
}

/// Evaluates `expression` strictly left to right, each group `e`...`f` being
/// reduced to a single operand first. The empty expression evaluates to `0`.
pub fn evaluate_expression(expression: &str) -> (r: Result<i64, EvalError>)
    ensures
        r == evaluation(expression@),
{
    let mut ev = Evaluator::new();
    let ghost s = expression@;
    for c in it: expression.chars()
        invariant
            it.seq() == s,
            s == expression@,
            ev.wf(),
            run(s.take(it.index() as int)) == Ok::<MachineState, EvalError>(ev@),
    {
        let ghost i = it.index() as int;
        proof {
            assert(s.take(i + 1).drop_last() =~= s.take(i));
            assert(c == s[i]);
        }
        match ev.feed(c) {
            Ok(()) => {},
            Err(e) => {
                proof {
                    lemma_error_persists(s, i + 1, e);
                }
                return Err(e);
            },
        }
    }
    proof {
        assert(s.take(s.len() as int) =~= s);
    }
    ev.finish()
}

} // verus!
