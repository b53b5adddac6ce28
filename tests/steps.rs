use match_planner::intersection::Row;
use match_planner::steps::{
    assign_rows, check_rows, disjunction_rows, negation_rows, CheckInstruction, Comparison, Expression,
    ExpressionEvaluateError, Operand,
};

fn row(values: Vec<Option<u64>>) -> Row {
    Row { values, multiplicity: 1, provenance: 0 }
}

#[test]
fn check_keeps_rows_that_pass_every_check() {
    let rows = vec![row(vec![Some(1), Some(2)]), row(vec![Some(3), Some(3)]), row(vec![Some(5), None])];
    let eq = CheckInstruction { lhs: Operand::Position(0), comparison: Comparison::Equal, rhs: Operand::Position(1) };
    let kept = check_rows(&rows, &vec![eq]);
    assert_eq!(kept.len(), 1);
    assert_eq!(kept[0].values, vec![Some(3), Some(3)]);
    let small = CheckInstruction { lhs: Operand::Position(0), comparison: Comparison::Less, rhs: Operand::Constant(4) };
    assert_eq!(check_rows(&rows, &vec![small]).len(), 2);
    assert_eq!(check_rows(&rows, &vec![]).len(), 3);
}

#[test]
fn assign_writes_the_value() {
    let rows = vec![row(vec![Some(10), None]), row(vec![Some(12), None])];
    let out = assign_rows(&rows, Expression::Add(Operand::Position(0), Operand::Constant(2)), 1).unwrap();
    assert_eq!(out[0].values, vec![Some(10), Some(12)]);
    assert_eq!(out[1].values, vec![Some(12), Some(14)]);
    let times = assign_rows(&rows, Expression::Multiply(Operand::Position(0), Operand::Constant(3)), 1).unwrap();
    assert_eq!(times[1].values[1], Some(36));
}

#[test]
fn assign_fails_on_missing_value_or_overflow() {
    let rows = vec![row(vec![Some(1), None])];
    assert_eq!(
        assign_rows(&rows, Expression::Add(Operand::Position(1), Operand::Constant(2)), 0).unwrap_err(),
        ExpressionEvaluateError::MissingValue
    );
    assert_eq!(
        assign_rows(&rows, Expression::Subtract(Operand::Position(0), Operand::Constant(2)), 1).unwrap_err(),
        ExpressionEvaluateError::Overflow
    );
    assert_eq!(
        assign_rows(&rows, Expression::Add(Operand::Constant(u64::MAX), Operand::Position(0)), 1).unwrap_err(),
        ExpressionEvaluateError::Overflow
    );
}

#[test]
fn negation_keeps_unmatched_rows() {
    let rows = vec![row(vec![Some(1)]), row(vec![Some(2)]), row(vec![Some(3)])];
    let kept = negation_rows(&rows, &vec![0, 4, 0]);
    let values: Vec<Option<u64>> = kept.iter().map(|r| r.values[0]).collect();
    assert_eq!(values, vec![Some(1), Some(3)]);
}


#[test]
fn disjunction_keeps_branch_order_and_duplicates() {
    let a = vec![row(vec![Some(1), Some(5)])];
    let b = vec![row(vec![Some(1), Some(6)]), row(vec![Some(2), None])];
    let out = disjunction_rows(&vec![a, vec![], b], &vec![0, 1], 2);
    let values: Vec<Vec<Option<u64>>> = out.iter().map(|r| r.values.clone()).collect();
    assert_eq!(values, vec![vec![Some(1), Some(5)], vec![Some(1), Some(6)], vec![Some(2), None]]);
}
