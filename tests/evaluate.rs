use parser::evaluate_expression;
use parser::machine::Evaluator;
use parser::operator::{apply_operator, EvalError, Operator};

#[test]
fn test_evaluate_expression1() {
    assert_eq!(evaluate_expression("3a2c4"), Ok(20));
}

#[test]
fn test_evaluate_expression2() {
    assert_eq!(evaluate_expression("32a2d2"), Ok(17));
}

#[test]
fn test_evaluate_expression3() {
    assert_eq!(evaluate_expression("500a10b66c32"), Ok(14208));
}

#[test]
fn test_evaluate_expression4() {
    println!("{:?}", evaluate_expression("3ae4c66fb32"));
    assert_eq!(evaluate_expression("3ae4c66fb32"), Ok(235));
}

#[test]
fn test_evaluate_expression5() {
    println!("{:?}", evaluate_expression("3c4d2aee2a4c41fc4f"));
    assert_eq!(evaluate_expression("3c4d2aee2a4c41fc4f"), Ok(990));
}

#[test]
fn empty_expression_is_zero() {
    assert_eq!(evaluate_expression(""), Ok(0));
}

#[test]
fn single_literal() {
    assert_eq!(evaluate_expression("42"), Ok(42));
    assert_eq!(evaluate_expression("007"), Ok(7));
}

#[test]
fn flat_expression_has_no_precedence() {
    // 2 + 3 * 4 read strictly left to right
    assert_eq!(evaluate_expression("2a3c4"), Ok(20));
    // 10 - 4 - 3, the value so far on the left of each subtraction
    assert_eq!(evaluate_expression("10b4b3"), Ok(3));
    // 100 / 5 / 2
    assert_eq!(evaluate_expression("100d5d2"), Ok(10));
}

#[test]
fn subtraction_can_go_negative() {
    assert_eq!(evaluate_expression("3b10"), Ok(-7));
}

#[test]
fn division_truncates_toward_zero() {
    assert_eq!(evaluate_expression("7d2"), Ok(3));
    assert_eq!(evaluate_expression("3b10d4"), Ok(-1));
}

#[test]
fn digits_before_close_belong_to_the_group() {
    // 2 * (3 + 4)
    assert_eq!(evaluate_expression("2ce3a4f"), Ok(14));
    // (2 + 3) * 4
    assert_eq!(evaluate_expression("e2a3fc4"), Ok(20));
}

#[test]
fn nested_groups() {
    // ((1 + 2) * (3 + 4)) - 1
    assert_eq!(evaluate_expression("ee1a2fce3a4ffb1"), Ok(20));
    // ((1 + 2) * ((3 + 4))) - 1
    assert_eq!(evaluate_expression("ee1a2fcee3a4fffb1"), Ok(20));
    assert_eq!(evaluate_expression("eee5fff"), Ok(5));
}

#[test]
fn group_has_value_of_its_contents() {
    assert_eq!(evaluate_expression("3a4c2"), Ok(14));
    assert_eq!(evaluate_expression("e3a4c2f"), Ok(14));
    assert_eq!(evaluate_expression("ee3a4c2ff"), Ok(14));
}

#[test]
fn group_acts_as_one_operand_in_context() {
    // 2 * (3 + 4) - 1
    assert_eq!(evaluate_expression("2ce3a4fb1"), Ok(13));
    assert_eq!(evaluate_expression("1ae2c3fc2"), Ok(14));
}

#[test]
fn pending_digits_run_on_across_group_open() {
    assert_eq!(evaluate_expression("2c3ea4f"), Ok(14));
    assert_eq!(evaluate_expression("2ce3a4f"), Ok(14));
    assert_eq!(evaluate_expression("3a4ef"), Ok(7));
    assert_eq!(evaluate_expression("3ae4f"), Ok(7));
    assert_eq!(evaluate_expression("3e4f"), Ok(34));
    assert_eq!(evaluate_expression("8d0e1f"), Ok(8));
}

#[test]
fn division_by_zero_literal_is_rejected() {
    assert_eq!(evaluate_expression("5d0"), Err(EvalError::DivisionByZero));
    assert_eq!(evaluate_expression("5d00a1"), Err(EvalError::DivisionByZero));
}

#[test]
fn division_by_zero_group_is_rejected() {
    assert_eq!(evaluate_expression("5de3b3f"), Err(EvalError::DivisionByZero));
    assert_eq!(evaluate_expression("8de0f"), Err(EvalError::DivisionByZero));
    assert_eq!(evaluate_expression("8de3b3fa1"), Err(EvalError::DivisionByZero));
}

#[test]
fn invalid_token_is_rejected() {
    assert_eq!(evaluate_expression("3x4"), Err(EvalError::InvalidToken));
    assert_eq!(evaluate_expression("3a+"), Err(EvalError::InvalidToken));
    assert_eq!(evaluate_expression("é"), Err(EvalError::InvalidToken));
}

#[test]
fn malformed_groups_are_rejected() {
    assert_eq!(evaluate_expression("3f"), Err(EvalError::MalformedGroup));
    assert_eq!(evaluate_expression("e3"), Err(EvalError::MalformedGroup));
    assert_eq!(evaluate_expression("ef"), Err(EvalError::MalformedGroup));
    assert_eq!(evaluate_expression("e3af"), Err(EvalError::MalformedGroup));
    assert_eq!(evaluate_expression("e1ff"), Err(EvalError::MalformedGroup));
}

#[test]
fn missing_operand_is_rejected() {
    assert_eq!(evaluate_expression("a3"), Err(EvalError::MissingOperand));
    assert_eq!(evaluate_expression("3a"), Err(EvalError::MissingOperand));
    assert_eq!(evaluate_expression("3ab4"), Err(EvalError::MissingOperand));
}

#[test]
fn missing_operator_is_rejected() {
    assert_eq!(evaluate_expression("e3f4"), Err(EvalError::MissingOperator));
    assert_eq!(evaluate_expression("e3fe4f"), Err(EvalError::MissingOperator));
}

#[test]
fn overflow_is_rejected() {
    assert_eq!(evaluate_expression("9223372036854775807"), Ok(i64::MAX));
    assert_eq!(evaluate_expression("9223372036854775808"), Err(EvalError::IntegerOverflow));
    assert_eq!(evaluate_expression("9223372036854775807a1"), Err(EvalError::IntegerOverflow));
    assert_eq!(evaluate_expression("0b9223372036854775807b2"), Err(EvalError::IntegerOverflow));
    assert_eq!(evaluate_expression("4294967296c4294967296"), Err(EvalError::IntegerOverflow));
}

#[test]
fn apply_operator_values() {
    assert_eq!(apply_operator(Operator::Add, 2, 5), Ok(7));
    assert_eq!(apply_operator(Operator::Subtract, 2, 5), Ok(3));
    assert_eq!(apply_operator(Operator::Multiply, 2, 5), Ok(10));
    assert_eq!(apply_operator(Operator::Divide, 2, 5), Ok(2));
    assert_eq!(apply_operator(Operator::Divide, 2, -5), Ok(-2));
    assert_eq!(apply_operator(Operator::Divide, 0, 5), Err(EvalError::DivisionByZero));
    assert_eq!(apply_operator(Operator::Divide, -1, i64::MIN), Err(EvalError::IntegerOverflow));
    assert_eq!(apply_operator(Operator::Add, 1, i64::MAX), Err(EvalError::IntegerOverflow));
}

#[test]
fn evaluator_reads_one_character_at_a_time() {
    let mut ev = Evaluator::new();
    for c in "6c7".chars() {
        assert_eq!(ev.feed(c), Ok(()));
    }
    assert_eq!(ev.finish(), Ok(42));
    let mut ev = Evaluator::new();
    assert_eq!(ev.feed('a'), Err(EvalError::MissingOperand));
}
