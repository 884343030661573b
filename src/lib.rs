//! Evaluator for a compact letter notation of integer arithmetic.
//!
//! Operands are runs of decimal digits; `a`, `b`, `c` and `d` stand for
//! addition, subtraction, multiplication and division; `e` opens a group and
//! `f` closes it. Evaluation is strictly left to right with no precedence,
//! a group being reduced to one operand before the surrounding expression
//! goes on.

pub mod operator;
pub mod machine;
pub mod evaluate;
pub mod flat;
pub mod groups;
pub mod division;

pub use evaluate::evaluate_expression;
