//! The steps around intersections: checks that filter rows, assignments that compute a value
//! into a row, negations that keep rows their inner pattern does not match, and disjunctions
//! that concatenate what their branches yield.
use vstd::prelude::*;
use crate::intersection::{Row, same_row, projected, project_row, copy_row};

verus! {

/// A value read from a row position, or a constant of the query.
#[derive(Clone, Copy, Debug, PartialEq, Eq, Structural)]
pub enum Operand {
    Position(usize),
    Constant(u64),
}

#[derive(Clone, Copy, Debug, PartialEq, Eq, Structural)]
pub enum Comparison {
    Equal,
    NotEqual,
    Less,
    LessOrEqual,
    Greater,
    GreaterOrEqual,
}

/// `lhs comparison rhs`, which a row passes when both sides have values that compare so.
#[derive(Clone, Copy, Debug, PartialEq, Eq, Structural)]
pub struct CheckInstruction {
    pub lhs: Operand,
    pub comparison: Comparison,
    pub rhs: Operand,
}

#[derive(Clone, Copy, Debug, PartialEq, Eq, Structural)]
pub enum Expression {
    Add(Operand, Operand),
    Subtract(Operand, Operand),
    Multiply(Operand, Operand),
}

#[derive(Clone, Copy, Debug, PartialEq, Eq, Structural)]
pub enum ExpressionEvaluateError {
    /// An operand has no value in the row.
    MissingValue,
    /// The result does not fit in 64 bits.
    Overflow,
}

pub open spec fn operand_value(values: Seq<Option<u64>>, op: Operand) -> Option<u64> {
    match op {
        Operand::Position(p) => if p < values.len() {
            values[p as int]
        } else {
            None
        },
        Operand::Constant(c) => Some(c),
    }
}

pub open spec fn compares(a: u64, c: Comparison, b: u64) -> bool {
    match c {
        Comparison::Equal => a == b,
        Comparison::NotEqual => a != b,
        Comparison::Less => a < b,
        Comparison::LessOrEqual => a <= b,
        Comparison::Greater => a > b,
        Comparison::GreaterOrEqual => a >= b,
    }
}

pub open spec fn check_holds(values: Seq<Option<u64>>, ci: CheckInstruction) -> bool {
    match (operand_value(values, ci.lhs), operand_value(values, ci.rhs)) {
        (Some(a), Some(b)) => compares(a, ci.comparison, b),
        _ => false,
    }
}

pub open spec fn passes(values: Seq<Option<u64>>, checks: Seq<CheckInstruction>) -> bool {
    forall|i: int| 0 <= i < checks.len() ==> check_holds(values, #[trigger] checks[i])
}

/// The rows of `rows` that pass every check, in order.
pub open spec fn passing_rows(rows: Seq<Row>, checks: Seq<CheckInstruction>) -> Seq<Row>
    decreases rows.len(),
{
    if rows.len() == 0 {
        Seq::empty()
    } else {
        let rest = passing_rows(rows.drop_last(), checks);
        if passes(rows.last().values@, checks) {
            rest.push(rows.last())
        } else {
            rest
        }
    }
}

fn operand_exec(values: &Vec<Option<u64>>, op: Operand) -> (r: Option<u64>)
    ensures
        r == operand_value(values@, op),
{
    match op {
        Operand::Position(p) => if p < values.len() {
            values[p]
        } else {
            None
        },
        Operand::Constant(c) => Some(c),
    }
}

fn check_exec(values: &Vec<Option<u64>>, ci: &CheckInstruction) -> (r: bool)
    ensures
        r == check_holds(values@, *ci),
{
    match (operand_exec(values, ci.lhs), operand_exec(values, ci.rhs)) {
        (Some(a), Some(b)) => match ci.comparison {
            Comparison::Equal => a == b,
            Comparison::NotEqual => a != b,
            Comparison::Less => a < b,
            Comparison::LessOrEqual => a <= b,
            Comparison::Greater => a > b,
            Comparison::GreaterOrEqual => a >= b,
        },
        _ => false,
    }
}

fn passes_exec(values: &Vec<Option<u64>>, checks: &Vec<CheckInstruction>) -> (r: bool)
    ensures
        r == passes(values@, checks@),
{
    let mut i: usize = 0;
    while i < checks.len()
        invariant
            i <= checks@.len(),
            forall|k: int| 0 <= k < i ==> check_holds(values@, #[trigger] checks@[k]),
        decreases checks@.len() - i,
    {
        if !check_exec(values, &checks[i]) {
            return false;
        }
        i = i + 1;
    }
    true
}

/// A check step: the rows that pass every check, in order.
pub fn check_rows(rows: &Vec<Row>, checks: &Vec<CheckInstruction>) -> (r: Vec<Row>)
    ensures
        r@.len() == passing_rows(rows@, checks@).len(),
        forall|i: int| 0 <= i < r@.len() ==> same_row(#[trigger] r@[i], passing_rows(rows@, checks@)[i]),
{
    let mut r: Vec<Row> = Vec::new();
    let mut i: usize = 0;
    while i < rows.len()
        invariant
            i <= rows@.len(),
            r@.len() == passing_rows(rows@.take(i as int), checks@).len(),
            forall|k: int|
                0 <= k < r@.len() ==> same_row(#[trigger] r@[k], passing_rows(rows@.take(i as int), checks@)[k]),
        decreases rows@.len() - i,
    {
        proof {
            assert(rows@.take(i + 1).drop_last() =~= rows@.take(i as int));
        }
        if passes_exec(&rows[i].values, checks) {
            r.push(copy_row(&rows[i]));
        }
        i = i + 1;
    }
    proof {
        assert(rows@.take(i as int) =~= rows@);
    }
    r
}

/// The value of `e` on a row, if its operands have values and the result fits in 64 bits.
pub open spec fn eval(values: Seq<Option<u64>>, e: Expression) -> Result<u64, ExpressionEvaluateError> {
    let (a, b) = match e {
        Expression::Add(x, y) => (x, y),
        Expression::Subtract(x, y) => (x, y),
        Expression::Multiply(x, y) => (x, y),
    };
    match (operand_value(values, a), operand_value(values, b)) {
        (Some(x), Some(y)) => {
            let v: int = match e {
                Expression::Add(_, _) => x + y,
                Expression::Subtract(_, _) => x - y,
                Expression::Multiply(_, _) => x * y,
            };
            if 0 <= v <= u64::MAX {
                Ok(v as u64)
            } else {
                Err(ExpressionEvaluateError::Overflow)
            }
        },
        _ => Err(ExpressionEvaluateError::MissingValue),
    }
}

fn eval_exec(values: &Vec<Option<u64>>, e: Expression) -> (r: Result<u64, ExpressionEvaluateError>)
    ensures
        r == eval(values@, e),
{
    let (a, b) = match e {
        Expression::Add(x, y) => (x, y),
        Expression::Subtract(x, y) => (x, y),
        Expression::Multiply(x, y) => (x, y),
    };
    match (operand_exec(values, a), operand_exec(values, b)) {
        (Some(x), Some(y)) => match e {
            Expression::Add(_, _) => if x <= u64::MAX - y {
                Ok(x + y)
            } else {
                Err(ExpressionEvaluateError::Overflow)
            },
            Expression::Subtract(_, _) => if x >= y {
                Ok(x - y)
            } else {
                Err(ExpressionEvaluateError::Overflow)
            },
            Expression::Multiply(_, _) => {
                let wide = crate::cost::mul_wide(x, y);
                if wide <= u64::MAX as u128 {
                    Ok(wide as u64)
                } else {
                    Err(ExpressionEvaluateError::Overflow)
                }
            },
        },
        _ => Err(ExpressionEvaluateError::MissingValue),
    }
}

/// `out` is `row` with the value of `e` on `row` written at `output`.
pub open spec fn assigned(row: Row, out: Row, e: Expression, output: usize) -> bool {
    &&& eval(row.values@, e) is Ok
    &&& out.values@ == (if output < row.values@.len() {
        row.values@.update(output as int, Some(eval(row.values@, e)->Ok_0))
    } else {
        row.values@
    })
    &&& out.multiplicity == row.multiplicity
    &&& out.provenance == row.provenance
}

/// An assignment step: each row with the value of `e` written at `output`, a position within
/// every row. The first row on
/// which `e` cannot be evaluated fails the step with that error.
pub fn assign_rows(rows: &Vec<Row>, e: Expression, output: usize) -> (r: Result<
    Vec<Row>,
    ExpressionEvaluateError,
>)
    requires
        forall|i: int| 0 <= i < rows@.len() ==> output < (#[trigger] rows@[i]).values@.len(),
    ensures
        r matches Ok(out) ==> out@.len() == rows@.len() && forall|i: int|
            0 <= i < out@.len() ==> #[trigger] assigned(rows@[i], out@[i], e, output),
        r matches Err(err) ==> exists|i: int|
            0 <= i < rows@.len() && #[trigger] eval(rows@[i].values@, e) == Err::<u64, ExpressionEvaluateError>(
                err,
            ),
{
    let mut out: Vec<Row> = Vec::new();
    let mut i: usize = 0;
    while i < rows.len()
        invariant
            i <= rows@.len(),
            out@.len() == i,
            forall|k: int| 0 <= k < i ==> #[trigger] assigned(rows@[k], out@[k], e, output),
        decreases rows@.len() - i,
    {
        let value = match eval_exec(&rows[i].values, e) {
            Ok(v) => v,
            Err(err) => {
                proof {
                    assert(eval(rows@[i as int].values@, e) == Err::<u64, ExpressionEvaluateError>(err));
                }
                return Err(err);
            },
        };
        let mut row = copy_row(&rows[i]);
        if output < row.values.len() {
            row.values.set(output, Some(value));
        }
        let ghost prev = out@;
        out.push(row);
        proof {
            assert(assigned(rows@[i as int], out@[i as int], e, output)) by {
                if output < rows@[i as int].values@.len() {
                    assert(out@[i as int].values@ =~= rows@[i as int].values@.update(output as int, Some(value)));
                }
            }
            assert forall|k: int| 0 <= k < i + 1 implies #[trigger] assigned(rows@[k], out@[k], e, output) by {
                if k < i {
                    assert(out@[k] == prev[k]);
                }
            }
        }
        i = i + 1;
    }
    Ok(out)
}

/// The rows whose count in `counts` is zero, in order.
pub open spec fn unmatched_rows(rows: Seq<Row>, counts: Seq<usize>) -> Seq<Row>
    decreases rows.len(),
{
    if rows.len() == 0 || counts.len() == 0 {
        Seq::empty()
    } else {
        let rest = unmatched_rows(rows.drop_last(), counts.drop_last());
        if counts.last() == 0 {
            rest.push(rows.last())
        } else {
            rest
        }
    }
}

/// A negation step: the rows whose inner pattern yields nothing, in order; `inner_counts[i]`
/// is how many rows the negated pattern yields for `rows[i]`.
pub fn negation_rows(rows: &Vec<Row>, inner_counts: &Vec<usize>) -> (r: Vec<Row>)
    requires
        inner_counts@.len() == rows@.len(),
    ensures
        r@.len() == unmatched_rows(rows@, inner_counts@).len(),
        forall|i: int|
            0 <= i < r@.len() ==> same_row(#[trigger] r@[i], unmatched_rows(rows@, inner_counts@)[i]),
{
    let mut r: Vec<Row> = Vec::new();
    let mut j: usize = 0;
    while j < rows.len()
        invariant
            inner_counts@.len() == rows@.len(),
            j <= rows@.len(),
            r@.len() == unmatched_rows(rows@.take(j as int), inner_counts@.take(j as int)).len(),
            forall|k: int|
                0 <= k < r@.len() ==> same_row(
                    #[trigger] r@[k],
                    unmatched_rows(rows@.take(j as int), inner_counts@.take(j as int))[k],
                ),
        decreases rows@.len() - j,
    {
        proof {
            assert(rows@.take(j + 1).drop_last() =~= rows@.take(j as int));
            assert(inner_counts@.take(j + 1).drop_last() =~= inner_counts@.take(j as int));
        }
        if inner_counts[j] == 0 {
            r.push(copy_row(&rows[j]));
        }
        j = j + 1;
    }
    proof {
        assert(rows@.take(j as int) =~= rows@);
        assert(inner_counts@.take(j as int) =~= inner_counts@);
    }
    r
}

/// A disjunction step: what each branch yields on the same input, branch after branch, each row
/// projected onto the `selected` positions of a row of `width` values. Duplicates stay.
pub fn disjunction_rows(branches: &Vec<Vec<Row>>, selected: &Vec<usize>, width: usize) -> (r: Vec<Row>)
    ensures
        r@.len() == branch_total(branches@, branches@.len() as int),
        forall|b: int, i: int|
            0 <= b < branches@.len() && 0 <= i < branches@[b]@.len() ==> {
                let row = #[trigger] r@[branch_total(branches@, b) + i];
                &&& row.values@ == projected(branches@[b]@[i].values@, selected@, width as nat)
                &&& row.multiplicity == branches@[b]@[i].multiplicity
                &&& row.provenance == branches@[b]@[i].provenance
            },
{
    let mut r: Vec<Row> = Vec::new();
    let mut b: usize = 0;
    while b < branches.len()
        invariant
            b <= branches@.len(),
            r@.len() == branch_total(branches@, b as int),
            forall|bb: int, i: int|
                0 <= bb < b && 0 <= i < branches@[bb]@.len() ==> {
                    let row = #[trigger] r@[branch_total(branches@, bb) + i];
                    &&& row.values@ == projected(branches@[bb]@[i].values@, selected@, width as nat)
                    &&& row.multiplicity == branches@[bb]@[i].multiplicity
                    &&& row.provenance == branches@[bb]@[i].provenance
                },
        decreases branches@.len() - b,
    {
        let rows = &branches[b];
        let ghost base = r@.len();
        proof {
            lemma_branch_total_monotone(branches@, b as int);
        }
        let mut i: usize = 0;
        while i < rows.len()
            invariant
                b < branches@.len(),
                *rows == branches@[b as int],
                base == branch_total(branches@, b as int),
                i <= rows@.len(),
                r@.len() == base + i,
                forall|bb: int, k: int|
                    0 <= bb < b && 0 <= k < branches@[bb]@.len() ==> {
                        let row = #[trigger] r@[branch_total(branches@, bb) + k];
                        &&& row.values@ == projected(branches@[bb]@[k].values@, selected@, width as nat)
                        &&& row.multiplicity == branches@[bb]@[k].multiplicity
                        &&& row.provenance == branches@[bb]@[k].provenance
                    },
                forall|k: int|
                    0 <= k < i ==> {
                        let row = #[trigger] r@[base + k];
                        &&& row.values@ == projected(rows@[k].values@, selected@, width as nat)
                        &&& row.multiplicity == rows@[k].multiplicity
                        &&& row.provenance == rows@[k].provenance
                    },
            decreases rows@.len() - i,
        {
            let ghost prev = r@;
            r.push(project_row(&rows[i], selected, width));
            proof {
                assert forall|bb: int, k: int|
                    0 <= bb < b && 0 <= k < branches@[bb]@.len() implies {
                        let row = #[trigger] r@[branch_total(branches@, bb) + k];
                        &&& row.values@ == projected(branches@[bb]@[k].values@, selected@, width as nat)
                        &&& row.multiplicity == branches@[bb]@[k].multiplicity
                        &&& row.provenance == branches@[bb]@[k].provenance
                    } by {
                    lemma_branch_total_prefix(branches@, bb, b as int);
                    assert(branch_total(branches@, bb) + k < prev.len());
                    lemma_branch_total_monotone(branches@, bb);
                    assert(r@[branch_total(branches@, bb) + k] == prev[branch_total(branches@, bb) + k]);
                }
                assert forall|k: int| 0 <= k < i + 1 implies {
                    let row = #[trigger] r@[base + k];
                    &&& row.values@ == projected(rows@[k].values@, selected@, width as nat)
                    &&& row.multiplicity == rows@[k].multiplicity
                    &&& row.provenance == rows@[k].provenance
                } by {
                    if k < i {
                        assert(r@[base + k] == prev[base + k]);
                    }
                }
            }
            i = i + 1;
        }
        proof {
            assert forall|bb: int, k: int|
                0 <= bb < b + 1 && 0 <= k < branches@[bb]@.len() implies {
                    let row = #[trigger] r@[branch_total(branches@, bb) + k];
                    &&& row.values@ == projected(branches@[bb]@[k].values@, selected@, width as nat)
                    &&& row.multiplicity == branches@[bb]@[k].multiplicity
                    &&& row.provenance == branches@[bb]@[k].provenance
                } by {
                if bb == b {
                    assert(r@[base + k] == r@[branch_total(branches@, bb) + k]);
                }
            }
        }
        b = b + 1;
    }
    r
}

/// The rows of branches `0..b` together.
pub open spec fn branch_total(branches: Seq<Vec<Row>>, b: int) -> int
    decreases b,
{
    if b <= 0 {
        0
    } else {
        branch_total(branches, b - 1) + branches[b - 1]@.len()
    }
}

proof fn lemma_branch_total_monotone(branches: Seq<Vec<Row>>, b: int)
    requires
        0 <= b,
    ensures
        branch_total(branches, b) >= 0,
    decreases b,
{
    if b > 0 {
        lemma_branch_total_monotone(branches, b - 1);
    }
}

proof fn lemma_branch_total_prefix(branches: Seq<Vec<Row>>, a: int, b: int)
    requires
        0 <= a < b,
    ensures
        branch_total(branches, a) + branches[a]@.len() <= branch_total(branches, b),
    decreases b - a,
{
    if a < b - 1 {
        lemma_branch_total_prefix(branches, a, b - 1);
    }
}

} // verus!
