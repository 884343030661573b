//! The evaluator as a state machine that reads one character at a time.
//!
//! Each open group keeps a [`Frame`]: nothing yet, a value, or a value with an
//! operator that waits for its right operand. Digits gather in a separate
//! literal until an operator, a group close or the end of the input commits
//! them. Every exec step is proved to follow [`step`], and the outcome of a
//! whole input is [`evaluation`].
use vstd::prelude::*;
use crate::operator::{apply_operator, apply_spec, EvalError, Operator};

verus! {

/// What an open group has read so far.
#[derive(Debug, Clone, Copy, PartialEq, Eq, Structural)]
pub enum Frame {
    /// No operand yet.
    Empty,
    /// A complete value.
    Value(i64),
    /// A value and the operator that will combine it with the next operand.
    Pending(i64, Operator),
}

/// Abstract state: the open groups, outermost first, and the literal being read.
pub struct MachineState {
    pub groups: Seq<Frame>,
    pub digits: Option<i64>,
}

pub open spec fn initial_state() -> MachineState {
    MachineState { groups: seq![Frame::Empty], digits: None }
}

pub open spec fn is_digit(c: char) -> bool {
    '0' <= c <= '9'
}

pub open spec fn digit_value(c: char) -> int {
    c as int - '0' as int
}

/// The operator that a letter stands for.
pub open spec fn operator_of(c: char) -> Option<Operator> {
    if c == 'a' {
        Some(Operator::Add)
    } else if c == 'b' {
        Some(Operator::Subtract)
    } else if c == 'c' {
        Some(Operator::Multiply)
    } else if c == 'd' {
        Some(Operator::Divide)
    } else {
        None
    }
}

/// Hands the operand `v` to the innermost group.
pub open spec fn commit(groups: Seq<Frame>, v: i64) -> Result<Seq<Frame>, EvalError>
    recommends
        groups.len() > 0,
{
    let top = groups.len() - 1;
    match groups.last() {
        Frame::Empty => Ok(groups.update(top, Frame::Value(v))),
        Frame::Pending(acc, op) => match apply_spec(op, v, acc) {
            Ok(r) => Ok(groups.update(top, Frame::Value(r))),
            Err(e) => Err(e),
        },
        Frame::Value(_) => Err(EvalError::MissingOperator),
    }
}

/// Commits the literal being read, if there is one.
pub open spec fn flush(m: MachineState) -> Result<MachineState, EvalError> {
    match m.digits {
        None => Ok(m),
        Some(v) => match commit(m.groups, v) {
            Ok(g) => Ok(MachineState { groups: g, digits: None }),
            Err(e) => Err(e),
        },
    }
}

/// The state after reading `c` in state `m`:
/// - a digit extends the literal, unless it follows a closed group;
/// - an operator letter commits the literal and leaves the value of the
///   innermost group waiting for its right operand;
/// - `e` opens a group where an operand is expected, leaving the literal
///   being read as it is, so that its digits go on into the new group;
/// - `f` commits the literal and hands the value of the innermost group to
///   the group around it;
/// - any other character is rejected.
pub open spec fn step(m: MachineState, c: char) -> Result<MachineState, EvalError> {
    if is_digit(c) {
        if m.groups.last() is Value {
            Err(EvalError::MissingOperator)
        } else {
            let prev: int = match m.digits {
                Some(d) => d as int,
                None => 0,
            };
            let v = prev * 10 + digit_value(c);
            if v <= i64::MAX {
                Ok(MachineState { groups: m.groups, digits: Some(v as i64) })
            } else {
                Err(EvalError::IntegerOverflow)
            }
        }
    } else if operator_of(c) is Some {
        match flush(m) {
            Ok(m1) => match m1.groups.last() {
                Frame::Value(v) => Ok(
                    MachineState {
                        groups: m1.groups.update(
                            m1.groups.len() - 1,
                            Frame::Pending(v, operator_of(c)->Some_0),
                        ),
                        digits: None,
                    },
                ),
                _ => Err(EvalError::MissingOperand),
            },
            Err(e) => Err(e),
        }
    } else if c == 'e' {
        if m.groups.last() is Value {
            Err(EvalError::MissingOperator)
        } else {
            Ok(MachineState { groups: m.groups.push(Frame::Empty), digits: m.digits })
        }
    } else if c == 'f' {
        match flush(m) {
            Ok(m1) => if m1.groups.len() > 1 && m1.groups.last() is Value {
                match commit(m1.groups.drop_last(), m1.groups.last()->Value_0) {
                    Ok(g) => Ok(MachineState { groups: g, digits: None }),
                    Err(e) => Err(e),
                }
            } else {
                Err(EvalError::MalformedGroup)
            },
            Err(e) => Err(e),
        }
    } else {
        Err(EvalError::InvalidToken)
    }
}

/// The state after reading all of `s`, or the first error met.
pub open spec fn run(s: Seq<char>) -> Result<MachineState, EvalError>
    decreases s.len(),
{
    if s.len() == 0 {
        Ok(initial_state())
    } else {
        match run(s.drop_last()) {
            Ok(m) => step(m, s.last()),
            Err(e) => Err(e),
        }
    }
}

/// The result of a state at the end of the input.
pub open spec fn outcome(m: MachineState) -> Result<i64, EvalError> {
    match flush(m) {
        Ok(m1) => if m1.groups.len() != 1 {
            Err(EvalError::MalformedGroup)
        } else {
            match m1.groups[0] {
                Frame::Empty => Ok(0),
                Frame::Value(v) => Ok(v),
                Frame::Pending(_, _) => Err(EvalError::MissingOperand),
            }
        },
        Err(e) => Err(e),
    }
}

/// The result of evaluating the whole input `s`.
pub open spec fn evaluation(s: Seq<char>) -> Result<i64, EvalError> {
    match run(s) {
        Ok(m) => outcome(m),
        Err(e) => Err(e),
    }
}

/// Reading `s` after `a` continues from the state that `a` left.
pub open spec fn resume(r: Result<MachineState, EvalError>, s: Seq<char>) -> Result<
    MachineState,
    EvalError,
>
    decreases s.len(),
{
    if s.len() == 0 {
        r
    } else {
        match resume(r, s.drop_last()) {
            Ok(m) => step(m, s.last()),
            Err(e) => Err(e),
        }
    }
}

/// What reading `a` and then `s` gives depends on `a` only through the state it leaves.
pub proof fn lemma_run_concat(a: Seq<char>, s: Seq<char>)
    ensures
        run(a + s) == resume(run(a), s),
    decreases s.len(),
{
    if s.len() == 0 {
        assert(a + s =~= a);
    } else {
        assert((a + s).drop_last() =~= a + s.drop_last());
        assert((a + s).last() == s.last());
        lemma_run_concat(a, s.drop_last());
    }
}

/// A failure is never undone by what follows.
pub proof fn lemma_resume_error(e: EvalError, s: Seq<char>)
    ensures
        resume(Err(e), s) == Err::<MachineState, EvalError>(e),
    decreases s.len(),
{
    if s.len() > 0 {
        lemma_resume_error(e, s.drop_last());
    }
}

/// Reads an expression one character at a time.
pub struct Evaluator {
    groups: Vec<Frame>,
    digits: Option<i64>,
}

impl View for Evaluator {
    type V = MachineState;

    closed spec fn view(&self) -> MachineState {
        MachineState { groups: self.groups@, digits: self.digits }
    }
}

impl Evaluator {
    /// The outermost group is always open, and a literal is never negative.
    pub open spec fn wf(&self) -> bool {
        &&& self@.groups.len() > 0
        &&& self@.digits matches Some(d) ==> d >= 0
    }

    /// An evaluator that has read nothing.
    pub fn new() -> (r: Evaluator)
        ensures
            r.wf(),
            r@ == initial_state(),
    {
        let mut groups: Vec<Frame> = Vec::new();
        groups.push(Frame::Empty);
        proof {
            assert(groups@ =~= seq![Frame::Empty]);
        }
        Evaluator { groups, digits: None }
    }

    fn commit_value(&mut self, v: i64) -> (r: Result<(), EvalError>)
        requires
            old(self).wf(),
        ensures
            match r {
                Ok(_) => commit(old(self)@.groups, v) == Ok::<Seq<Frame>, EvalError>(
                    final(self)@.groups,
                ) && final(self).digits == old(self).digits,
                Err(e) => commit(old(self)@.groups, v) == Err::<Seq<Frame>, EvalError>(e),
            },
    {
        let top = self.groups.len() - 1;
        match self.groups[top] {
            Frame::Empty => {
                self.groups.set(top, Frame::Value(v));
                Ok(())
            },
            Frame::Pending(acc, op) => {
                let r = apply_operator(op, v, acc)?;
                self.groups.set(top, Frame::Value(r));
                Ok(())
            },
            Frame::Value(_) => Err(EvalError::MissingOperator),
        }
    }

    fn flush_digits(&mut self) -> (r: Result<(), EvalError>)
        requires
            old(self).wf(),
        ensures
            match r {
                Ok(_) => flush(old(self)@) == Ok::<MachineState, EvalError>(final(self)@),
                Err(e) => flush(old(self)@) == Err::<MachineState, EvalError>(e),
            },
    {
        match self.digits {
            None => Ok(()),
            Some(v) => {
                self.commit_value(v)?;
                self.digits = None;
                Ok(())
            },
        }
    }

    /// Reads the character `c`.
    pub fn feed(&mut self, c: char) -> (r: Result<(), EvalError>)
        requires
            old(self).wf(),
        ensures
            match r {
                Ok(_) => step(old(self)@, c) == Ok::<MachineState, EvalError>(final(self)@)
                    && final(self).wf(),
                Err(e) => step(old(self)@, c) == Err::<MachineState, EvalError>(e),
            },
    {
        if '0' <= c && c <= '9' {
            let top = self.groups.len() - 1;
            if let Frame::Value(_) = self.groups[top] {
                return Err(EvalError::MissingOperator);
            }
            let prev: i64 = match self.digits {
                Some(d) => d,
                None => 0,
            };
            let d: i64 = (c as u32 - '0' as u32) as i64;
            match prev.checked_mul(10) {
                Some(p) => match p.checked_add(d) {
                    Some(v) => {
                        self.digits = Some(v);
                        Ok(())
                    },
                    None => Err(EvalError::IntegerOverflow),
                },
                None => Err(EvalError::IntegerOverflow),
            }
        } else if let Some(op) = operator_from_char(c) {
            self.flush_digits()?;
            let top = self.groups.len() - 1;
            match self.groups[top] {
                Frame::Value(v) => {
                    self.groups.set(top, Frame::Pending(v, op));
                    Ok(())
                },
                _ => Err(EvalError::MissingOperand),
            }
        } else if c == 'e' {
            let top = self.groups.len() - 1;
            if let Frame::Value(_) = self.groups[top] {
                return Err(EvalError::MissingOperator);
            }
            self.groups.push(Frame::Empty);
            Ok(())
        } else if c == 'f' {
            self.flush_digits()?;
            let top = self.groups.len() - 1;
            if top == 0 {
                return Err(EvalError::MalformedGroup);
            }
            match self.groups[top] {
                Frame::Value(v) => {
                    self.groups.pop();
                    proof {
                        assert(self.groups@ =~= old(self)@.groups.drop_last());
                    }
                    self.commit_value(v)
                },
                _ => Err(EvalError::MalformedGroup),
            }
        } else {
            Err(EvalError::InvalidToken)
        }
    }

    /// The result of the input read so far, taken as complete.
    pub fn finish(self) -> (r: Result<i64, EvalError>)
        requires
            self.wf(),
        ensures
            r == outcome(self@),
    {
        let mut ev = self;
        ev.flush_digits()?;
        if ev.groups.len() != 1 {
            return Err(EvalError::MalformedGroup);
        }
        match ev.groups[0] {
            Frame::Empty => Ok(0),
            Frame::Value(v) => Ok(v),
            Frame::Pending(_, _) => Err(EvalError::MissingOperand),
        }
    }
}

/// The operator that the letter `c` stands for, if any.
pub fn operator_from_char(c: char) -> (r: Option<Operator>)
    ensures
        r == operator_of(c),
{
    if c == 'a' {
        Some(Operator::Add)
    } else if c == 'b' {
        Some(Operator::Subtract)
    } else if c == 'c' {
        Some(Operator::Multiply)
    } else if c == 'd' {
        Some(Operator::Divide)
    } else {
        None
    }
}

} // verus!
