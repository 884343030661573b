//! Laws of the evaluator on groups.
use vstd::prelude::*;
use crate::machine::{
    commit, evaluation, flush, initial_state, is_digit, lemma_run_concat, operator_of, outcome, resume,
    run, step, Frame, MachineState,
};
use crate::operator::EvalError;

verus! {

/// `m` with the groups `outer` open around its own.
spec fn nested_in(outer: Seq<Frame>, m: MachineState) -> MachineState {
    MachineState { groups: outer + m.groups, digits: m.digits }
}

/// Whatever was read, the outermost group stays open.
pub proof fn lemma_run_keeps_a_group(s: Seq<char>)
    requires
        run(s) is Ok,
    ensures
        run(s)->Ok_0.groups.len() > 0,
    decreases s.len(),
{
    if s.len() > 0 {
        lemma_run_keeps_a_group(s.drop_last());
    }
}

proof fn lemma_commit_nested(outer: Seq<Frame>, g: Seq<Frame>, v: i64)
    requires
        g.len() > 0,
        commit(g, v) is Ok,
    ensures
        commit(outer + g, v) == Ok::<Seq<Frame>, EvalError>(outer + commit(g, v)->Ok_0),
{
    let top = (outer + g).len() - 1;
    assert((outer + g).last() == g.last());
    let x = commit(g, v)->Ok_0.last();
    assert((outer + g).update(top, x) =~= outer + g.update(g.len() - 1, x));
}

proof fn lemma_flush_nested(outer: Seq<Frame>, m: MachineState)
    requires
        m.groups.len() > 0,
        flush(m) is Ok,
    ensures
        flush(nested_in(outer, m)) == Ok::<MachineState, EvalError>(
            nested_in(outer, flush(m)->Ok_0),
        ),
{
    if let Some(v) = m.digits {
        lemma_commit_nested(outer, m.groups, v);
    }
}

/// One step inside a group does what it does on its own.
proof fn lemma_step_nested(outer: Seq<Frame>, m: MachineState, c: char)
    requires
        m.groups.len() > 0,
        step(m, c) is Ok,
    ensures
        step(nested_in(outer, m), c) == Ok::<MachineState, EvalError>(
            nested_in(outer, step(m, c)->Ok_0),
        ),
{
    assert(nested_in(outer, m).groups.last() == m.groups.last());
    if is_digit(c) {
    } else if operator_of(c) is Some {
        lemma_flush_nested(outer, m);
        let m1 = flush(m)->Ok_0;
        assert((outer + m1.groups).last() == m1.groups.last());
        let x = Frame::Pending(m1.groups.last()->Value_0, operator_of(c)->Some_0);
        assert((outer + m1.groups).update((outer + m1.groups).len() - 1, x) =~= outer
            + m1.groups.update(m1.groups.len() - 1, x));
    } else if c == 'e' {
        assert((outer + m.groups).push(Frame::Empty) =~= outer + m.groups.push(Frame::Empty));
    } else if c == 'f' {
        lemma_flush_nested(outer, m);
        let m1 = flush(m)->Ok_0;
        assert((outer + m1.groups).last() == m1.groups.last());
        assert((outer + m1.groups).drop_last() =~= outer + m1.groups.drop_last());
        lemma_commit_nested(outer, m1.groups.drop_last(), m1.groups.last()->Value_0);
    }
}

/// Reading `s` inside an open group does what reading `s` alone does.
proof fn lemma_run_nested(p: Seq<char>, s: Seq<char>, outer: Seq<Frame>)
    requires
        run(p) == Ok::<MachineState, EvalError>(nested_in(outer, initial_state())),
        run(s) is Ok,
    ensures
        run(p + s) == Ok::<MachineState, EvalError>(nested_in(outer, run(s)->Ok_0)),
    decreases s.len(),
{
    if s.len() == 0 {
        assert(p + s =~= p);
    } else {
        let t = s.drop_last();
        assert((p + s).drop_last() =~= p + t);
        assert((p + s).last() == s.last());
        lemma_run_nested(p, t, outer);
        lemma_run_keeps_a_group(t);
        lemma_step_nested(outer, run(t)->Ok_0, s.last());
    }
}

/// After a non-empty input the state is never the initial one.
proof fn lemma_moved_on(s: Seq<char>)
    requires
        s.len() > 0,
        run(s) is Ok,
    ensures
        run(s)->Ok_0 != initial_state(),
{
    let m = run(s)->Ok_0;
    let c = s.last();
    let prev = run(s.drop_last())->Ok_0;
    lemma_run_keeps_a_group(s.drop_last());
    if m == initial_state() {
        assert(m.groups[0] == Frame::Empty);
        if operator_of(c) is Some {
            assert(m.groups[m.groups.len() - 1] is Pending);
        } else if c == 'e' {
            assert(m.groups.len() == prev.groups.len() + 1);
        } else if c == 'f' {
            let m1 = flush(prev)->Ok_0;
            let g = m1.groups.drop_last();
            assert(g.len() > 0);
            assert(m.groups[g.len() - 1] is Value);
        }
    }
}

/// The state that a group with value `v` leaves after the input that read
/// to state `m`: `v` is handed to the innermost group of `m`.
pub open spec fn after_group(m: MachineState, v: i64) -> Result<MachineState, EvalError> {
    flush(MachineState { groups: m.groups, digits: Some(v) })
}

/// Within a larger expression a group acts as one operand with the value of
/// its contents: when `x` leaves a state that expects an operand with no digits
/// pending, and the non-empty `s` evaluates to `v`, reading `x`, `e`, `s`, `f`
/// and then `y` goes on from `x` with `v` handed over as an operand.
pub proof fn lemma_group_in_context(x: Seq<char>, s: Seq<char>, y: Seq<char>, v: i64)
    requires
        run(x) is Ok,
        run(x)->Ok_0.digits is None,
        !(run(x)->Ok_0.groups.last() is Value),
        s.len() > 0,
        evaluation(s) == Ok::<i64, EvalError>(v),
    ensures
        run(x + seq!['e'] + s + seq!['f'] + y) == resume(after_group(run(x)->Ok_0, v), y),
        evaluation(x + seq!['e'] + s + seq!['f'] + y) == match resume(
            after_group(run(x)->Ok_0, v),
            y,
        ) {
            Ok(m) => outcome(m),
            Err(e) => Err::<i64, EvalError>(e),
        },
{
    let m = run(x)->Ok_0;
    lemma_run_keeps_a_group(x);
    let outer = m.groups;
    let open = x + seq!['e'];
    assert(run(open) == Ok::<MachineState, EvalError>(nested_in(outer, initial_state()))) by {
        assert(open.drop_last() =~= x);
        assert(open.last() == 'e');
        assert(outer.push(Frame::Empty) =~= outer + initial_state().groups);
    }
    let ms = run(s)->Ok_0;
    lemma_run_keeps_a_group(s);
    lemma_run_nested(open, s, outer);
    lemma_moved_on(s);
    lemma_flush_nested(outer, ms);
    let m1 = flush(ms)->Ok_0;
    assert(m1.groups.len() == 1);
    assert(m1.groups[0] == Frame::Value(v)) by {
        if m1.groups[0] is Empty {
            if ms.digits is None {
                assert(ms.groups =~= initial_state().groups);
            }
        }
    }
    let closed = open + s + seq!['f'];
    assert(closed.drop_last() =~= open + s);
    assert(closed.last() == 'f');
    let n1 = nested_in(outer, m1);
    assert(n1.groups.drop_last() =~= outer);
    assert(n1.groups.last() == Frame::Value(v));
    assert(run(closed) == after_group(m, v));
    assert(x + seq!['e'] + s + seq!['f'] + y =~= closed + y);
    lemma_run_concat(closed, y);
}

/// A group evaluates to the value of its contents: when `s` is a non-empty
/// expression with value `v`, the expression `e` `s` `f` has value `v` too.
pub proof fn lemma_group_value(s: Seq<char>, v: i64)
    requires
        s.len() > 0,
        evaluation(s) == Ok::<i64, EvalError>(v),
    ensures
        evaluation(seq!['e'] + s + seq!['f']) == Ok::<i64, EvalError>(v),
{
    let x = Seq::<char>::empty();
    let y = Seq::<char>::empty();
    assert(run(x) == Ok::<MachineState, EvalError>(initial_state()));
    lemma_group_in_context(x, s, y, v);
    assert(x + seq!['e'] + s + seq!['f'] + y =~= seq!['e'] + s + seq!['f']);
    let done = MachineState { groups: seq![Frame::Value(v)], digits: None };
    assert(initial_state().groups.update(0, Frame::Value(v)) =~= done.groups);
    assert(after_group(initial_state(), v) == Ok::<MachineState, EvalError>(done));
}

/// Opening a group right before or right after a digit gives the same state.
proof fn lemma_open_passes_digit(x: Seq<char>, c: char)
    requires
        is_digit(c),
    ensures
        run(x.push(c).push('e')) == run(x.push('e').push(c)),
{
    assert(x.push(c).push('e').drop_last() =~= x.push(c));
    assert(x.push(c).drop_last() =~= x);
    assert(x.push('e').push(c).drop_last() =~= x.push('e'));
    assert(x.push('e').drop_last() =~= x);
    assert(run(x.push(c)) == match run(x) {
        Ok(m) => step(m, c),
        Err(e) => Err::<MachineState, EvalError>(e),
    });
    assert(run(x.push('e')) == match run(x) {
        Ok(m) => step(m, 'e'),
        Err(e) => Err::<MachineState, EvalError>(e),
    });
    if run(x) is Ok {
        lemma_run_keeps_a_group(x);
        let m = run(x)->Ok_0;
        if !(m.groups.last() is Value) {
            let opened = MachineState { groups: m.groups.push(Frame::Empty), digits: m.digits };
            assert(step(m, 'e') == Ok::<MachineState, EvalError>(opened));
            assert(opened.groups.last() == Frame::Empty);
            if step(m, c) is Ok {
                let m1 = step(m, c)->Ok_0;
                assert(m1.groups == m.groups);
                assert(step(opened, c) == Ok::<MachineState, EvalError>(
                    MachineState { groups: opened.groups, digits: m1.digits },
                ));
            }
        }
    }
}

/// Digits read just before `e` go on into the group that it opens: moving `e`
/// in front of a run of digits changes neither the state nor the result.
pub proof fn lemma_open_keeps_digits(x: Seq<char>, d: Seq<char>, y: Seq<char>)
    requires
        forall|i: int| 0 <= i < d.len() ==> is_digit(#[trigger] d[i]),
    ensures
        run(x + d + seq!['e'] + y) == run(x + seq!['e'] + d + y),
        evaluation(x + d + seq!['e'] + y) == evaluation(x + seq!['e'] + d + y),
    decreases d.len(),
{
    if d.len() == 0 {
        assert(x + d =~= x);
        assert(x + seq!['e'] + d =~= x + seq!['e']);
    } else {
        let p = d.drop_last();
        let c = d.last();
        assert(is_digit(c)) by {
            assert(d[d.len() - 1] == c);
        }
        assert forall|i: int| 0 <= i < p.len() implies is_digit(#[trigger] p[i]) by {
            assert(p[i] == d[i]);
        }
        let xp = x + p;
        lemma_open_passes_digit(xp, c);
        assert(x + d + seq!['e'] + y =~= xp.push(c).push('e') + y);
        assert(xp + seq!['e'] + seq![c] + y =~= xp.push('e').push(c) + y);
        lemma_run_concat(xp.push(c).push('e'), y);
        lemma_run_concat(xp.push('e').push(c), y);
        lemma_open_keeps_digits(x, p, seq![c] + y);
        assert(x + p + seq!['e'] + (seq![c] + y) =~= xp + seq!['e'] + seq![c] + y);
        assert(x + seq!['e'] + p + (seq![c] + y) =~= x + seq!['e'] + d + y);
    }
}

} // verus!
