//! One attempt to learn from an identity on one row.

use vstd::prelude::*;
use crate::affine_expression::{
    lemma_leaves_wf,
    lemma_solution_unique,
    AffineExpression,
    AffineForm,
    Solution,
};
use crate::analyzed::{Expression, Identity, SelectedExpressions};
use crate::bounded_solver::{
    bounded_values,
    bounds_solve,
    cell_value,
    holds_assignments,
    in_limit,
    is_open,
    lemma_open_list,
    lemma_solution_kind,
    no_solution,
    open_list,
    searchable,
    solve_within,
    BoundedSolution,
};
use crate::eval_result::{
    Cell,
    Constraint,
    EvalError,
    EvalResult,
    EvalStatus,
    EvalValue,
    IncompleteCause,
};
use crate::expression_evaluator::{
    affine_form,
    evaluate,
    evaluate_affine,
    form_value,
    lemma_affine_sound,
    lemma_known_value,
    refs_known,
    row_values,
};
use crate::lookup::{
    candidate,
    lemma_fixed_table,
    lemma_reads_table,
    search_table,
    table_known,
    tuple_at,
};
use crate::machines::fixed_lookup::{matching_row, table_row, FixedLookup, LookupOutcome};
use crate::verdict::right_known_at;
use crate::rows::{completes, lemma_trace_of_wf, trace_of, Cells, Rows};
use crate::trace::Trace;
use crate::FixedData;

verus! {

/// No trace that gives the known cells their values satisfies the identity on the row.
pub open spec fn unsatisfiable(fixed: &FixedData, cells: Cells, identity: Identity, row: int) -> bool {
    forall|t: Trace| #[trigger] completes(t, fixed, cells) ==> !t.holds_at(identity, row)
}

/// Every constraint is on a witness column and assigns a field element.
pub open spec fn constraints_wf(fixed: &FixedData, constraints: Seq<(Cell, Constraint)>) -> bool {
    forall|j: int|
        0 <= j < constraints.len() ==> {
            &&& (#[trigger] constraints[j]).0.column < fixed.witness_count()
            &&& match constraints[j].1 {
                Constraint::Assignment(v) => v < fixed.field.modulus,
            }
        }
}

/// Whether the trace gives the cell the value that the constraint assigns.
pub open spec fn obeys(t: Trace, row: int, constraint: (Cell, Constraint)) -> bool {
    match constraint.1 {
        Constraint::Assignment(v) => t.witness[constraint.0.column as int][t.target_row(
            row,
            constraint.0.next,
        )] == v,
    }
}

/// Whether the trace obeys every constraint.
pub open spec fn obeys_all(t: Trace, row: int, constraints: Seq<(Cell, Constraint)>) -> bool {
    forall|j: int| 0 <= j < constraints.len() ==> obeys(t, row, #[trigger] constraints[j])
}

/// The constraints follow from the identity: every trace that gives the
/// known cells their values and satisfies the identity on the row obeys them.
pub open spec fn implied(
    fixed: &FixedData,
    cells: Cells,
    identity: Identity,
    row: int,
    constraints: Seq<(Cell, Constraint)>,
) -> bool {
    forall|t: Trace| #[trigger]
        completes(t, fixed, cells) && t.holds_at(identity, row) ==> obeys_all(t, row, constraints)
}

/// The constraints are all that the identity asks: every trace that gives
/// the known cells their values and obeys them satisfies the identity on the row.
pub open spec fn settles(
    fixed: &FixedData,
    cells: Cells,
    identity: Identity,
    row: int,
    constraints: Seq<(Cell, Constraint)>,
) -> bool {
    forall|t: Trace| #[trigger]
        completes(t, fixed, cells) && obeys_all(t, row, constraints) ==> t.holds_at(identity, row)
}

/// Whether the trace keeps every column that has a limit below it.
pub open spec fn keeps(t: Trace, limits: Seq<Option<u64>>) -> bool {
    forall|c: int, r: int|
        0 <= c < limits.len() && 0 <= r < t.degree ==> match limits[c] {
            Some(l) => (#[trigger] t.witness[c][r]) < l,
            None => true,
        }
}

/// No trace that gives the known cells their values and keeps the columns
/// below their limits satisfies the identity on the row.
pub open spec fn unsatisfiable_within(
    fixed: &FixedData,
    cells: Cells,
    limits: Seq<Option<u64>>,
    identity: Identity,
    row: int,
) -> bool {
    forall|t: Trace| #[trigger]
        completes(t, fixed, cells) && keeps(t, limits) ==> !t.holds_at(identity, row)
}

/// The constraints follow from the identity and the limits: every trace
/// that gives the known cells their values, keeps the columns below their
/// limits and satisfies the identity on the row obeys them.
pub open spec fn implied_within(
    fixed: &FixedData,
    cells: Cells,
    limits: Seq<Option<u64>>,
    identity: Identity,
    row: int,
    constraints: Seq<(Cell, Constraint)>,
) -> bool {
    forall|t: Trace| #[trigger]
        completes(t, fixed, cells) && keeps(t, limits) && t.holds_at(identity, row) ==> obeys_all(
            t,
            row,
            constraints,
        )
}

/// What an attempt that did not fail says, where columns have limits: its
/// constraints follow from the identity and the limits, and where it is
/// complete they are all that the identity asks.
pub open spec fn outcome_sound_within(
    fixed: &FixedData,
    cells: Cells,
    limits: Seq<Option<u64>>,
    identity: Identity,
    row: int,
    value: EvalValue,
) -> bool {
    &&& constraints_wf(fixed, value.constraints@)
    &&& implied_within(fixed, cells, limits, identity, row, value.constraints@)
    &&& value.status == EvalStatus::Complete ==> settles(
        fixed,
        cells,
        identity,
        row,
        value.constraints@,
    )
}

/// The values that a trace that keeps the limits gives the cells of a row
/// and of the next row are within the bounds of the open cells of a form.
proof fn lemma_trace_bounded(
    fixed: &FixedData,
    t: Trace,
    limits: Seq<Option<u64>>,
    form: AffineForm,
    row: int,
)
    requires
        fixed.wf(),
        t.wf(),
        t.degree == fixed.degree,
        t.witness.len() == fixed.witness_count(),
        limits.len() == fixed.witness_count(),
        limits.len() <= usize::MAX,
        form.wf(fixed.witness_count(), fixed.field.modulus as int),
        0 <= row < fixed.degree,
        keeps(t, limits),
        searchable(form, limits, fixed.field.modulus as int),
    ensures
        bounded_values(row_values(t, row), row_values(t, t.successor(row)), form, limits),
{
    let here = row_values(t, row);
    let there = row_values(t, t.successor(row));
    let cells = open_list(form);
    lemma_open_list(form);
    assert forall|j: int| 0 <= j < cells.len() implies in_limit(
        here,
        there,
        limits,
        #[trigger] cells[j],
    ) by {
        let cell = cells[j];
        assert(is_open(form, cell));
        let target = t.target_row(row, cell.next);
        assert(0 <= target < t.degree);
        let x = t.witness[cell.column as int][target];
        assert(cell_value(here, there, cell) == x);
    }
}

/// What an attempt that did not fail says: its constraints follow from the
/// identity, and where it is complete they are all that the identity asks.
pub open spec fn outcome_sound(
    fixed: &FixedData,
    cells: Cells,
    identity: Identity,
    row: int,
    value: EvalValue,
) -> bool {
    &&& constraints_wf(fixed, value.constraints@)
    &&& implied(fixed, cells, identity, row, value.constraints@)
    &&& value.status == EvalStatus::Complete ==> settles(
        fixed,
        cells,
        identity,
        row,
        value.constraints@,
    )
}

/// Where an affine form with one open cell must have a given value, a trace
/// gives the form this value exactly if it gives the cell the solution.
proof fn lemma_solved_cell(
    fixed: &FixedData,
    t: Trace,
    form: AffineForm,
    column: int,
    next: bool,
    value: int,
    row: int,
)
    requires
        fixed.wf(),
        t.wf(),
        t.modulus == fixed.field.modulus,
        t.degree == fixed.degree,
        t.witness.len() == fixed.witness_count(),
        0 <= row < fixed.degree,
        form.wf(fixed.witness_count(), fixed.field.modulus as int),
        form.only_unknown(column, next),
        0 <= value < fixed.field.modulus,
        (form.coefficient(column, next) * value + form.offset) % (fixed.field.modulus as int) == 0,
        exists|x: int| fixed.field.is_inverse(form.coefficient(column, next), x),
    ensures
        form_value(form, t, row) == 0 <==> t.witness[column][t.target_row(row, next)] == value,
{
    let m = fixed.field.modulus as int;
    let here = row_values(t, row);
    let there = row_values(t, t.successor(row));
    form.lemma_value_only(column, next, here, there, m);
    let target = t.target_row(row, next);
    assert(0 <= target < t.degree);
    assert(t.witness[column].len() == t.degree);
    let x = t.witness[column][target] as int;
    let coefficient = form.coefficient(column, next);
    let inverse = choose|x: int| fixed.field.is_inverse(coefficient, x);
    if form_value(form, t, row) == 0 {
        lemma_solution_unique(m, coefficient, form.offset, inverse, x, value);
    }
}

/// Whether the form has one open cell, with a coefficient that has an inverse.
pub open spec fn solvable(fixed: &FixedData, form: AffineForm) -> bool {
    exists|column: int, next: bool| #[trigger]
        form.only_unknown(column, next) && exists|x: int|
            fixed.field.is_inverse(form.coefficient(column, next), x)
}

/// What an attempt on `e = 0` comes to: `None` for a contradiction, else
/// the status of the attempt. Known cells decide; with open cells the affine
/// form decides, if there is one.
pub open spec fn polynomial_status(
    fixed: &FixedData,
    cells: Cells,
    limits: Seq<Option<u64>>,
    e: Expression,
    row: int,
) -> Option<EvalStatus> {
    if refs_known(cells, fixed.degree as int, e, row) {
        if trace_of(fixed, cells).eval(e, row) == 0 {
            Some(EvalStatus::Complete)
        } else {
            None
        }
    } else {
        match affine_form(fixed, cells, e, row) {
            None => Some(EvalStatus::Incomplete(IncompleteCause::NonLinear)),
            Some(form) => if form.is_constant() {
                if form.offset == 0 {
                    Some(EvalStatus::Complete)
                } else {
                    None
                }
            } else if solvable(fixed, form) {
                Some(EvalStatus::Complete)
            } else if searchable(form, limits, fixed.field.modulus as int) && no_solution(
                form,
                limits,
                fixed.field.modulus as int,
            ) {
                None
            } else if bounds_solve(form, limits, fixed.field.modulus as int) {
                Some(EvalStatus::Complete)
            } else {
                Some(EvalStatus::Incomplete(IncompleteCause::MultipleUnknowns))
            },
        }
    }
}

/// The number of cells whose value an attempt on `e = 0` gives: one where
/// the expression reads one open cell and is affine in it, with a
/// coefficient that has an inverse; all open cells where their limits leave
/// one combination of values only.
pub open spec fn polynomial_solves(
    fixed: &FixedData,
    cells: Cells,
    limits: Seq<Option<u64>>,
    e: Expression,
    row: int,
) -> int {
    if refs_known(cells, fixed.degree as int, e, row) {
        0
    } else {
        match affine_form(fixed, cells, e, row) {
            None => 0,
            Some(form) => if form.is_constant() {
                0
            } else if solvable(fixed, form) {
                1
            } else if bounds_solve(form, limits, fixed.field.modulus as int) {
                open_list(form).len() as int
            } else {
                0
            },
        }
    }
}

/// Learns from `e = 0` on the row: where every cell is known, the identity
/// holds or is contradicted; where one cell is open and the expression is
/// affine in it, the cell's value follows; where several cells are open
/// and all have limits, the values follow if one combination only is left.
pub fn process_polynomial(
    fixed: &FixedData,
    rows: &Rows,
    limits: &Vec<Option<u64>>,
    e: &Expression,
    id: usize,
    row: usize,
) -> (r: EvalResult)
    requires
        fixed.wf(),
        rows.wf(fixed),
        limits@.len() == fixed.witness_count(),
        e.wf(fixed.fixed_count(), fixed.witness_count()),
        row < fixed.degree,
    ensures
        match r {
            Ok(value) => {
                &&& outcome_sound_within(
                    fixed,
                    rows@,
                    limits@,
                    Identity::Polynomial(*e),
                    row as int,
                    value,
                )
                &&& polynomial_status(fixed, rows@, limits@, *e, row as int) == Some(value.status)
                &&& value.constraints@.len() == polynomial_solves(
                    fixed,
                    rows@,
                    limits@,
                    *e,
                    row as int,
                )
            },
            Err(err) => {
                &&& err == EvalError::ConstraintUnsatisfiable { row, identity: id }
                &&& unsatisfiable_within(
                    fixed,
                    rows@,
                    limits@,
                    Identity::Polynomial(*e),
                    row as int,
                )
                &&& polynomial_status(fixed, rows@, limits@, *e, row as int) is None
            },
        },
{
    let ghost identity = Identity::Polynomial(*e);
    let width: usize = limits.len();
    match evaluate(fixed, rows, e, row) {
        Some(value) => {
            proof {
                assert forall|t: Trace| #[trigger] completes(t, fixed, rows@) implies t.eval(
                    *e,
                    row as int,
                ) == value by {
                    lemma_known_value(fixed, rows@, t, *e, row as int);
                }
            }
            if value == 0 {
                Ok(EvalValue::complete(Vec::new()))
            } else {
                Err(EvalError::ConstraintUnsatisfiable { row, identity: id })
            }
        },
        None => {
            let affine: AffineExpression = match evaluate_affine(fixed, rows, e, row) {
                Some(a) => a,
                None => {
                    return Ok(EvalValue::incomplete(Vec::new(), IncompleteCause::NonLinear));
                },
            };
            let solution: Solution = affine.solve(&fixed.field);
            let ghost m = fixed.field.modulus as int;
            match solution {
                Solution::Satisfied => {
                    proof {
                        assert forall|t: Trace| #[trigger] completes(t, fixed, rows@) implies t.eval(
                            *e,
                            row as int,
                        ) == 0 by {
                            lemma_affine_sound(fixed, rows@, t, *e, row as int);
                            affine@.lemma_value_constant(
                                row_values(t, row as int),
                                row_values(t, t.successor(row as int)),
                                m,
                            );
                        }
                    }
                    Ok(EvalValue::complete(Vec::new()))
                },
                Solution::Contradiction => {
                    proof {
                        assert forall|t: Trace| #[trigger] completes(t, fixed, rows@) implies t.eval(
                            *e,
                            row as int,
                        ) != 0 by {
                            lemma_affine_sound(fixed, rows@, t, *e, row as int);
                            affine@.lemma_value_constant(
                                row_values(t, row as int),
                                row_values(t, t.successor(row as int)),
                                m,
                            );
                            vstd::arithmetic::div_mod::lemma_small_mod(
                                affine@.offset as nat,
                                m as nat,
                            );
                        }
                    }
                    Err(EvalError::ConstraintUnsatisfiable { row, identity: id })
                },
                Solution::Assignment { column, next, value } => {
                    let mut constraints: Vec<(Cell, Constraint)> = Vec::new();
                    constraints.push((Cell { column, next }, Constraint::Assignment(value)));
                    proof {
                        assert forall|t: Trace| #[trigger] completes(t, fixed, rows@) implies (
                        t.eval(*e, row as int) == 0 <==> obeys_all(t, row as int, constraints@)) by {
                            lemma_affine_sound(fixed, rows@, t, *e, row as int);
                            lemma_solved_cell(
                                fixed,
                                t,
                                affine@,
                                column as int,
                                next,
                                value as int,
                                row as int,
                            );
                            assert(obeys(t, row as int, constraints@[0]) == obeys_all(
                                t,
                                row as int,
                                constraints@,
                            ));
                        }
                    }
                    proof {
                        assert(affine@.only_unknown(column as int, next));
                        assert(solvable(fixed, affine@));
                    }
                    Ok(EvalValue::complete(constraints))
                },
                Solution::Undetermined => {
                    proof {
                        assert(!solvable(fixed, affine@));
                    }
                    let bounded: BoundedSolution = solve_within(&affine, &fixed.field, limits);
                    proof {
                        lemma_solution_kind(bounded, affine@, limits@, m);
                    }
                    match bounded {
                        BoundedSolution::Contradiction => {
                            proof {
                                assert forall|t: Trace| #[trigger]
                                    completes(t, fixed, rows@) && keeps(
                                        t,
                                        limits@,
                                    ) implies t.eval(*e, row as int) != 0 by {
                                    lemma_affine_sound(fixed, rows@, t, *e, row as int);
                                    lemma_trace_bounded(fixed, t, limits@, affine@, row as int);
                                }
                            }
                            Err(EvalError::ConstraintUnsatisfiable { row, identity: id })
                        },
                        BoundedSolution::Assignments(constraints) => {
                            proof {
                                lemma_open_list(affine@);
                                assert forall|j: int| 0 <= j < constraints@.len() implies {
                                    &&& (#[trigger] constraints@[j]).0.column
                                        < fixed.witness_count()
                                    &&& match constraints@[j].1 {
                                        Constraint::Assignment(v) => v < fixed.field.modulus,
                                    }
                                } by {
                                    assert(is_open(affine@, open_list(affine@)[j]));
                                }
                                assert forall|t: Trace| #[trigger]
                                    completes(t, fixed, rows@) implies (holds_assignments(
                                    row_values(t, row as int),
                                    row_values(t, t.successor(row as int)),
                                    constraints@,
                                ) <==> obeys_all(t, row as int, constraints@)) by {
                                    let at = row_values(t, row as int);
                                    let there = row_values(t, t.successor(row as int));
                                    assert forall|j: int|
                                        0 <= j < constraints@.len() implies (match (
                                    #[trigger] constraints@[j]).1 {
                                        Constraint::Assignment(v) => cell_value(
                                            at,
                                            there,
                                            constraints@[j].0,
                                        ) == v,
                                    }) == obeys(t, row as int, constraints@[j]) by {
                                        assert(is_open(affine@, open_list(affine@)[j]));
                                    }
                                }
                                assert forall|t: Trace| #[trigger]
                                    completes(t, fixed, rows@) && keeps(t, limits@) && t.holds_at(
                                        Identity::Polynomial(*e),
                                        row as int,
                                    ) implies obeys_all(t, row as int, constraints@) by {
                                    lemma_affine_sound(fixed, rows@, t, *e, row as int);
                                    lemma_trace_bounded(fixed, t, limits@, affine@, row as int);
                                }
                                assert forall|t: Trace| #[trigger]
                                    completes(t, fixed, rows@) && obeys_all(
                                        t,
                                        row as int,
                                        constraints@,
                                    ) implies t.holds_at(Identity::Polynomial(*e), row as int) by {
                                    lemma_affine_sound(fixed, rows@, t, *e, row as int);
                                    assert(bounded_values(
                                        row_values(t, row as int),
                                        row_values(t, t.successor(row as int)),
                                        affine@,
                                        limits@,
                                    ));
                                }
                            }
                            Ok(EvalValue::complete(constraints))
                        },
                        BoundedSolution::Undetermined => Ok(
                            EvalValue::incomplete(Vec::new(), IncompleteCause::MultipleUnknowns),
                        ),
                    }
                },
            }
        },
    }
}

/// The values of the expressions of a tuple on a row, as far as they are known.
pub fn known_values(fixed: &FixedData, rows: &Rows, expressions: &Vec<Expression>, row: usize) -> (r:
    Vec<Option<u64>>)
    requires
        fixed.wf(),
        rows.wf(fixed),
        crate::analyzed::expressions_wf(expressions@, fixed.fixed_count(), fixed.witness_count()),
        row < fixed.degree,
    ensures
        r@.len() == expressions@.len(),
        forall|k: int|
            0 <= k < r@.len() ==> match #[trigger] r@[k] {
                Some(v) => refs_known(rows@, fixed.degree as int, expressions@[k], row as int) && v
                    == trace_of(fixed, rows@).eval(expressions@[k], row as int),
                None => !refs_known(rows@, fixed.degree as int, expressions@[k], row as int),
            },
{
    let mut values: Vec<Option<u64>> = Vec::new();
    let mut k: usize = 0;
    while k < expressions.len()
        invariant
            fixed.wf(),
            rows.wf(fixed),
            crate::analyzed::expressions_wf(
                expressions@,
                fixed.fixed_count(),
                fixed.witness_count(),
            ),
            row < fixed.degree,
            k <= expressions@.len(),
            values@.len() == k,
            forall|j: int|
                0 <= j < k ==> match #[trigger] values@[j] {
                    Some(v) => refs_known(rows@, fixed.degree as int, expressions@[j], row as int)
                        && v == trace_of(fixed, rows@).eval(expressions@[j], row as int),
                    None => !refs_known(rows@, fixed.degree as int, expressions@[j], row as int),
                },
        decreases expressions.len() - k,
    {
        assert(expressions@[k as int].wf(fixed.fixed_count(), fixed.witness_count()));
        values.push(evaluate(fixed, rows, &expressions[k], row));
        k += 1;
    }
    values
}

/// Whether a trace gives the left tuple of the row the given values.
pub open spec fn reads_tuple(t: Trace, left: SelectedExpressions, row: int, values: Seq<u64>) -> bool {
    forall|k: int|
        0 <= k < left.expressions@.len() ==> t.eval(#[trigger] left.expressions@[k], row)
            == values[k]
}

/// Whether every trace that gives the known cells their values and obeys
/// the constraints gives the expression the value.
pub open spec fn place_settled(
    fixed: &FixedData,
    cells: Cells,
    e: Expression,
    row: int,
    value: u64,
    constraints: Seq<(Cell, Constraint)>,
) -> bool {
    forall|t: Trace| #[trigger]
        completes(t, fixed, cells) && obeys_all(t, row, constraints) ==> t.eval(e, row) == value
}

/// The places of the left tuple whose value is known.
pub open spec fn known_args(
    fixed: &FixedData,
    cells: Cells,
    left: SelectedExpressions,
    row: int,
) -> Seq<Option<u64>> {
    Seq::new(
        left.expressions@.len(),
        |k: int|
            if refs_known(cells, fixed.degree as int, left.expressions@[k], row) {
                Some(trace_of(fixed, cells).eval(left.expressions@[k], row) as u64)
            } else {
                None
            },
    )
}

/// Whether the cell that an expression leaves open follows from the value
/// that the expression must have.
pub open spec fn place_solvable(
    fixed: &FixedData,
    cells: Cells,
    e: Expression,
    row: int,
    value: u64,
) -> bool {
    match affine_form(fixed, cells, e, row) {
        Some(form) => solvable(
            fixed,
            form.minus(
                AffineForm::constant(fixed.witness_count() as nat, value as int),
                fixed.field.modulus as int,
            ),
        ),
        None => false,
    }
}

/// Whether every open place of the left tuple follows from the tuple that
/// the table holds.
pub open spec fn places_solvable(
    fixed: &FixedData,
    cells: Cells,
    left: SelectedExpressions,
    row: int,
    values: Seq<u64>,
    n: int,
) -> bool {
    forall|k: int|
        0 <= k < n && !refs_known(cells, fixed.degree as int, left.expressions@[k], row)
            ==> #[trigger] place_solvable(fixed, cells, left.expressions@[k], row, values[k])
}

/// What an attempt on a lookup comes to: `None` for a contradiction, else
/// the status of the attempt. The selector must be known; a selector of
/// zero asks nothing. The table must be known. No row that matches the
/// known places is a contradiction; rows with different tuples leave the
/// lookup open; one tuple settles the lookup if every open place follows.
pub open spec fn lookup_status(
    fixed: &FixedData,
    cells: Cells,
    left: SelectedExpressions,
    right: SelectedExpressions,
    row: int,
) -> Option<EvalStatus> {
    let here = trace_of(fixed, cells);
    let args = known_args(fixed, cells, left, row);
    if left.selector is Some && !refs_known(cells, fixed.degree as int, left.selector->0, row) {
        Some(EvalStatus::Incomplete(IncompleteCause::UnknownSelector))
    } else if !here.selected(left, row) {
        Some(EvalStatus::Complete)
    } else if !table_known(fixed, cells, right) {
        Some(EvalStatus::Incomplete(IncompleteCause::NoLookupMachine))
    } else if forall|right_row: int| !#[trigger] candidate(fixed, cells, right, args, right_row) {
        None
    } else if exists|right_row: int, other: int|
        #[trigger] candidate(fixed, cells, right, args, right_row) && #[trigger] candidate(
            fixed,
            cells,
            right,
            args,
            other,
        ) && tuple_at(fixed, cells, right, right_row) != tuple_at(fixed, cells, right, other) {
        Some(EvalStatus::Incomplete(IncompleteCause::MultipleLookupMatches))
    } else {
        let right_row = choose|right_row: int|
            #[trigger] candidate(fixed, cells, right, args, right_row);
        if places_solvable(
            fixed,
            cells,
            left,
            row,
            tuple_at(fixed, cells, right, right_row),
            left.expressions@.len() as int,
        ) {
            Some(EvalStatus::Complete)
        } else {
            Some(EvalStatus::Incomplete(IncompleteCause::MultipleUnknowns))
        }
    }
}

/// Whether the constraints give every open place of the left tuple that
/// follows from the tuple of the table: every trace that gives the known
/// cells their values and obeys the constraints gives such a place the
/// value that the table holds, whichever row of the table matches.
pub open spec fn lookup_learned(
    fixed: &FixedData,
    cells: Cells,
    left: SelectedExpressions,
    right: SelectedExpressions,
    row: int,
    constraints: Seq<(Cell, Constraint)>,
) -> bool {
    forall|right_row: int, k: int|
        #![trigger candidate(fixed, cells, right, known_args(fixed, cells, left, row), right_row), left.expressions@[k]]
        candidate(fixed, cells, right, known_args(fixed, cells, left, row), right_row) && 0 <= k
            < left.expressions@.len() && !refs_known(
            cells,
            fixed.degree as int,
            left.expressions@[k],
            row,
        ) && place_solvable(
            fixed,
            cells,
            left.expressions@[k],
            row,
            tuple_at(fixed, cells, right, right_row)[k],
        ) ==> place_settled(
            fixed,
            cells,
            left.expressions@[k],
            row,
            tuple_at(fixed, cells, right, right_row)[k],
            constraints,
        )
}

/// A form that is constant has no open cell.
proof fn lemma_constant_not_solvable(fixed: &FixedData, form: AffineForm)
    requires
        form.is_constant(),
        form.current.len() == form.next.len(),
    ensures
        !solvable(fixed, form),
{
    assert forall|column: int, next: bool| !#[trigger] form.only_unknown(column, next) by {
        if form.only_unknown(column, next) {
            if next {
                assert(form.next[column] == 0);
            } else {
                assert(form.current[column] == 0);
            }
        }
    }
}

/// Learns from a lookup on the row: with the selector and some places of
/// the left tuple known, the table either has no such tuple (a
/// contradiction), or one tuple (which then gives the open places), or several.
pub fn process_lookup(
    fixed: &FixedData,
    rows: &Rows,
    fixed_lookup: &mut FixedLookup,
    left: &SelectedExpressions,
    right: &SelectedExpressions,
    id: usize,
    row: usize,
) -> (r: EvalResult)
    requires
        fixed.wf(),
        rows.wf(fixed),
        left.wf(fixed.fixed_count(), fixed.witness_count()),
        right.wf(fixed.fixed_count(), fixed.witness_count()),
        left.expressions@.len() == right.expressions@.len(),
        row < fixed.degree,
    ensures
        match r {
            Ok(value) => {
                &&& outcome_sound(
                    fixed,
                    rows@,
                    Identity::Plookup(*left, *right),
                    row as int,
                    value,
                )
                &&& lookup_status(fixed, rows@, *left, *right, row as int) == Some(value.status)
                &&& value.status == EvalStatus::Incomplete(IncompleteCause::MultipleUnknowns)
                    ==> lookup_learned(
                    fixed,
                    rows@,
                    *left,
                    *right,
                    row as int,
                    value.constraints@,
                )
                &&& value.status != EvalStatus::Complete && value.status
                    != EvalStatus::Incomplete(IncompleteCause::MultipleUnknowns)
                    ==> value.constraints@.len() == 0
            },
            Err(err) => {
                &&& err == EvalError::ConstraintUnsatisfiable { row, identity: id }
                &&& unsatisfiable(fixed, rows@, Identity::Plookup(*left, *right), row as int)
                &&& lookup_status(fixed, rows@, *left, *right, row as int) is None
            },
        },
{
    let ghost identity = Identity::Plookup(*left, *right);
    let ghost m = fixed.field.modulus as int;
    let ghost here = trace_of(fixed, rows@);
    proof {
        lemma_trace_of_wf(fixed, rows@);
    }
    match &left.selector {
        Some(s) => match evaluate(fixed, rows, s, row) {
            None => {
                return Ok(EvalValue::incomplete(Vec::new(), IncompleteCause::UnknownSelector));
            },
            Some(v) => {
                proof {
                    assert forall|t: Trace| #[trigger] completes(t, fixed, rows@) implies t.eval(
                        *s,
                        row as int,
                    ) == v by {
                        lemma_known_value(fixed, rows@, t, *s, row as int);
                    }
                }
                if v == 0 {
                    return Ok(EvalValue::complete(Vec::new()));
                }
            },
        },
        None => {},
    }
    proof {
        assert forall|t: Trace| #[trigger] completes(t, fixed, rows@) implies t.selected(
            *left,
            row as int,
        ) by {}
        assert(here.selected(*left, row as int));
    }
    let args: Vec<Option<u64>> = known_values(fixed, rows, &left.expressions, row);
    proof {
        assert(args@ =~= known_args(fixed, rows@, *left, row as int)) by {
            assert forall|k: int| 0 <= k < args@.len() implies args@[k] == known_args(
                fixed,
                rows@,
                *left,
                row as int,
            )[k] by {
                let e = left.expressions@[k];
                assert(e.wf(fixed.fixed_count(), fixed.witness_count()));
                if args@[k] is Some {
                    here.lemma_eval_in_field(e, row as int);
                }
            }
        }
    }
    let width: usize = fixed.witness_cols.len();
    let outcome: LookupOutcome = match fixed_lookup.process_plookup(fixed, &args, right) {
        Some(outcome) => {
            proof {
                lemma_fixed_table(fixed, rows@, *right, args@);
                match &outcome {
                    LookupOutcome::Miss => {},
                    LookupOutcome::Match(values) => {
                        let r2 = choose|r2: int|
                            #[trigger] matching_row(fixed, *right, args@, r2) && table_row(
                                fixed,
                                *right,
                                r2,
                            ) == values@;
                        assert(candidate(fixed, rows@, *right, args@, r2));
                        assert forall|r3: int|
                            #[trigger] candidate(
                                fixed,
                                rows@,
                                *right,
                                args@,
                                r3,
                            ) implies tuple_at(fixed, rows@, *right, r3) == values@ by {
                            assert(matching_row(fixed, *right, args@, r3));
                        }
                    },
                    LookupOutcome::Ambiguous => {
                        let (r2, r3) = choose|r2: int, r3: int|
                            #[trigger] matching_row(fixed, *right, args@, r2)
                                && #[trigger] matching_row(fixed, *right, args@, r3) && table_row(
                                fixed,
                                *right,
                                r2,
                            ) != table_row(fixed, *right, r3);
                        assert(candidate(fixed, rows@, *right, args@, r2));
                        assert(candidate(fixed, rows@, *right, args@, r3));
                    },
                }
            }
            outcome
        },
        None => match search_table(fixed, rows, &args, right) {
            Some(outcome) => outcome,
            None => {
                return Ok(EvalValue::incomplete(Vec::new(), IncompleteCause::NoLookupMachine));
            },
        },
    };
    proof {
        // A row of the table that a trace matches the left tuple with matches the known places.
        assert forall|t: Trace, right_row: int| #[trigger]
            completes(t, fixed, rows@) && #[trigger] t.is_match(
                *left,
                *right,
                row as int,
                right_row,
            ) implies candidate(fixed, rows@, *right, args@, right_row) && reads_tuple(
            t,
            *left,
            row as int,
            tuple_at(fixed, rows@, *right, right_row),
        ) by {
            assert(right_known_at(fixed, rows@, *right, right_row));
            lemma_reads_table(fixed, rows@, t, *right, right_row);
            assert forall|k: int| 0 <= k < args@.len() implies match #[trigger] args@[k] {
                Some(v) => v == tuple_at(fixed, rows@, *right, right_row)[k],
                None => true,
            } by {
                let e = left.expressions@[k];
                assert(e.wf(fixed.fixed_count(), fixed.witness_count()));
                if args@[k] is Some {
                    lemma_known_value(fixed, rows@, t, e, row as int);
                }
            }
        }
    }
    match outcome {
        LookupOutcome::Ambiguous => Ok(
            EvalValue::incomplete(Vec::new(), IncompleteCause::MultipleLookupMatches),
        ),
        LookupOutcome::Miss => {
            proof {
                assert forall|t: Trace| #[trigger] completes(t, fixed, rows@) implies !t.holds_at(
                    identity,
                    row as int,
                ) by {
                    if t.holds_at(identity, row as int) {
                        let right_row = choose|right_row: int|
                            #[trigger] t.is_match(*left, *right, row as int, right_row);
                        assert(candidate(fixed, rows@, *right, args@, right_row));
                    }
                }
            }
            Err(EvalError::ConstraintUnsatisfiable { row, identity: id })
        },
        LookupOutcome::Match(values) => {
            let ghost found = choose|r2: int|
                #[trigger] candidate(fixed, rows@, *right, args@, r2) && tuple_at(
                    fixed,
                    rows@,
                    *right,
                    r2,
                ) == values@;
            proof {
                // A trace that satisfies the lookup reads the one tuple that matches.
                assert forall|t: Trace| #[trigger]
                    completes(t, fixed, rows@) && t.holds_at(
                        identity,
                        row as int,
                    ) implies reads_tuple(t, *left, row as int, values@) by {
                    let right_row = choose|right_row: int|
                        #[trigger] t.is_match(*left, *right, row as int, right_row);
                    assert(candidate(fixed, rows@, *right, args@, right_row));
                }
                lemma_reads_table(fixed, rows@, here, *right, found);
                // The status goes by the tuple that was found.
                let chosen = choose|right_row: int|
                    #[trigger] candidate(fixed, rows@, *right, args@, right_row);
                assert(candidate(fixed, rows@, *right, args@, chosen));
                assert(tuple_at(fixed, rows@, *right, chosen) == values@);
            }
            let mut constraints: Vec<(Cell, Constraint)> = Vec::new();
            let mut complete: bool = true;
            let mut k: usize = 0;
            while k < args.len()
                invariant
                    fixed.wf(),
                    rows.wf(fixed),
                    left.wf(fixed.fixed_count(), fixed.witness_count()),
                    right.wf(fixed.fixed_count(), fixed.witness_count()),
                    row < fixed.degree,
                    width == fixed.witness_count(),
                    m == fixed.field.modulus,
                    here == trace_of(fixed, rows@),
                    identity == Identity::Plookup(*left, *right),
                    k <= args@.len(),
                    args@.len() == left.expressions@.len(),
                    left.expressions@.len() == right.expressions@.len(),
                    values@.len() == right.expressions@.len(),
                    forall|j: int| 0 <= j < values@.len() ==> #[trigger] values@[j] < m,
                    forall|j: int|
                        0 <= j < args@.len() ==> match #[trigger] args@[j] {
                            Some(v) => refs_known(
                                rows@,
                                fixed.degree as int,
                                left.expressions@[j],
                                row as int,
                            ) && v == values@[j],
                            None => !refs_known(
                                rows@,
                                fixed.degree as int,
                                left.expressions@[j],
                                row as int,
                            ),
                        },
                    forall|j: int|
                        0 <= j < args@.len() && args@[j] is Some ==> here.eval(
                            #[trigger] left.expressions@[j],
                            row as int,
                        ) == values@[j],
                    forall|t: Trace| #[trigger]
                        completes(t, fixed, rows@) && t.holds_at(identity, row as int)
                            ==> reads_tuple(t, *left, row as int, values@),
                    constraints_wf(fixed, constraints@),
                    implied(fixed, rows@, identity, row as int, constraints@),
                    complete == places_solvable(
                        fixed,
                        rows@,
                        *left,
                        row as int,
                        values@,
                        k as int,
                    ),
                    complete ==> forall|j: int|
                        0 <= j < k ==> place_settled(
                            fixed,
                            rows@,
                            #[trigger] left.expressions@[j],
                            row as int,
                            values@[j],
                            constraints@,
                        ),
                    forall|j: int|
                        0 <= j < k && place_solvable(
                            fixed,
                            rows@,
                            #[trigger] left.expressions@[j],
                            row as int,
                            values@[j],
                        ) && !refs_known(
                            rows@,
                            fixed.degree as int,
                            left.expressions@[j],
                            row as int,
                        ) ==> place_settled(
                            fixed,
                            rows@,
                            left.expressions@[j],
                            row as int,
                            values@[j],
                            constraints@,
                        ),
                decreases args.len() - k,
            {
                let ghost e = left.expressions@[k as int];
                assert(e.wf(fixed.fixed_count(), fixed.witness_count()));
                let ghost before = constraints@;
                let mut settled: bool = false;
                if args[k].is_none() {
                    match evaluate_affine(fixed, rows, &left.expressions[k], row) {
                        Some(a) => {
                            proof {
                                lemma_leaves_wf(width as nat, values@[k as int] as int, 0, false, m);
                            }
                            let target: AffineExpression = AffineExpression::constant(
                                width,
                                values[k],
                            );
                            let difference: AffineExpression = a.sub(&target, &fixed.field);
                            proof {
                                crate::affine_expression::lemma_forms_wf(
                                    a@,
                                    target@,
                                    0,
                                    width as int,
                                    m,
                                );
                            }
                            match difference.solve(&fixed.field) {
                                Solution::Assignment { column, next, value } => {
                                    let constraint: (Cell, Constraint) = (
                                        Cell { column, next },
                                        Constraint::Assignment(value),
                                    );
                                    constraints.push(constraint);
                                    settled = true;
                                    proof {
                                        assert(difference@.only_unknown(column as int, next));
                                        assert(solvable(fixed, difference@));
                                        // The cell has the solution exactly if the place has the value.
                                        assert forall|t: Trace| #[trigger]
                                            completes(t, fixed, rows@) implies (obeys(
                                            t,
                                            row as int,
                                            constraint,
                                        ) <==> t.eval(e, row as int) == values@[k as int]) by {
                                            lemma_affine_sound(fixed, rows@, t, e, row as int);
                                            let at = row_values(t, row as int);
                                            let there = row_values(t, t.successor(row as int));
                                            a@.lemma_value_minus(target@, at, there, m);
                                            target@.lemma_value_constant(at, there, m);
                                            vstd::arithmetic::div_mod::lemma_small_mod(
                                                values@[k as int] as nat,
                                                m as nat,
                                            );
                                            t.lemma_eval_in_field(e, row as int);
                                            lemma_solved_cell(
                                                fixed,
                                                t,
                                                difference@,
                                                column as int,
                                                next,
                                                value as int,
                                                row as int,
                                            );
                                            let x = t.eval(e, row as int);
                                            let y = values@[k as int] as int;
                                            lemma_difference_zero(x, y, m);
                                        }
                                        assert forall|j: int|
                                            0 <= j < constraints@.len() implies {
                                            &&& (#[trigger] constraints@[j]).0.column
                                                < fixed.witness_count()
                                            &&& match constraints@[j].1 {
                                                Constraint::Assignment(v) => v
                                                    < fixed.field.modulus,
                                            }
                                        } by {
                                            if j < before.len() {
                                                assert(constraints@[j] == before[j]);
                                            }
                                        }
                                        assert forall|t: Trace| #[trigger]
                                            completes(t, fixed, rows@) && t.holds_at(
                                                identity,
                                                row as int,
                                            ) implies obeys_all(t, row as int, constraints@) by {
                                            assert(obeys_all(t, row as int, before));
                                            assert(reads_tuple(t, *left, row as int, values@));
                                            assert(t.eval(e, row as int) == values@[k as int]);
                                            assert forall|j: int|
                                                0 <= j < constraints@.len() implies obeys(
                                                t,
                                                row as int,
                                                #[trigger] constraints@[j],
                                            ) by {
                                                if j < before.len() {
                                                    assert(constraints@[j] == before[j]);
                                                }
                                            }
                                        }
                                        assert(place_settled(
                                            fixed,
                                            rows@,
                                            e,
                                            row as int,
                                            values@[k as int],
                                            constraints@,
                                        )) by {
                                            assert forall|t: Trace| #[trigger]
                                                completes(t, fixed, rows@) && obeys_all(
                                                    t,
                                                    row as int,
                                                    constraints@,
                                                ) implies t.eval(e, row as int)
                                                == values@[k as int] by {
                                                assert(constraints@[before.len() as int]
                                                    == constraint);
                                                assert(obeys(t, row as int, constraint));
                                            }
                                        }
                                    }
                                },
                                Solution::Undetermined => {
                                    proof {
                                        assert(!solvable(fixed, difference@));
                                    }
                                },
                                _ => {
                                    proof {
                                        lemma_constant_not_solvable(fixed, difference@);
                                    }
                                },
                            }
                            proof {
                                assert(settled == place_solvable(
                                    fixed,
                                    rows@,
                                    e,
                                    row as int,
                                    values@[k as int],
                                ));
                            }
                        },
                        None => {},
                    }
                } else {
                    settled = true;
                    proof {
                        assert(place_settled(
                            fixed,
                            rows@,
                            e,
                            row as int,
                            values@[k as int],
                            constraints@,
                        )) by {
                            assert forall|t: Trace| #[trigger]
                                completes(t, fixed, rows@) && obeys_all(
                                    t,
                                    row as int,
                                    constraints@,
                                ) implies t.eval(e, row as int) == values@[k as int] by {
                                lemma_known_value(fixed, rows@, t, e, row as int);
                            }
                        }
                    }
                }
                let ghost earlier = complete;
                if !settled {
                    complete = false;
                }
                proof {
                    assert(complete == places_solvable(
                        fixed,
                        rows@,
                        *left,
                        row as int,
                        values@,
                        k as int + 1,
                    )) by {
                        if complete {
                            assert forall|j: int|
                                0 <= j < k + 1 && !refs_known(
                                    rows@,
                                    fixed.degree as int,
                                    left.expressions@[j],
                                    row as int,
                                ) implies #[trigger] place_solvable(
                                fixed,
                                rows@,
                                left.expressions@[j],
                                row as int,
                                values@[j],
                            ) by {}
                        } else if earlier {
                            assert(!refs_known(rows@, fixed.degree as int, e, row as int));
                            assert(!place_solvable(fixed, rows@, e, row as int, values@[k as int]));
                        } else {
                            let j = choose|j: int|
                                0 <= j < k && !refs_known(
                                    rows@,
                                    fixed.degree as int,
                                    left.expressions@[j],
                                    row as int,
                                ) && !#[trigger] place_solvable(
                                    fixed,
                                    rows@,
                                    left.expressions@[j],
                                    row as int,
                                    values@[j],
                                );
                            assert(0 <= j < k + 1);
                        }
                    }
                    assert forall|j: int|
                        0 <= j < k + 1 && place_solvable(
                            fixed,
                            rows@,
                            #[trigger] left.expressions@[j],
                            row as int,
                            values@[j],
                        ) && !refs_known(
                            rows@,
                            fixed.degree as int,
                            left.expressions@[j],
                            row as int,
                        ) implies place_settled(
                        fixed,
                        rows@,
                        left.expressions@[j],
                        row as int,
                        values@[j],
                        constraints@,
                    ) by {
                        if j < k {
                            assert(place_settled(
                                fixed,
                                rows@,
                                left.expressions@[j],
                                row as int,
                                values@[j],
                                before,
                            ));
                            assert forall|t: Trace| #[trigger]
                                completes(t, fixed, rows@) && obeys_all(
                                    t,
                                    row as int,
                                    constraints@,
                                ) implies t.eval(left.expressions@[j], row as int)
                                == values@[j] by {
                                assert forall|i: int| 0 <= i < before.len() implies obeys(
                                    t,
                                    row as int,
                                    #[trigger] before[i],
                                ) by {
                                    assert(constraints@[i] == before[i]);
                                }
                            }
                        }
                    }
                    if complete {
                        assert forall|j: int| 0 <= j < k + 1 implies place_settled(
                            fixed,
                            rows@,
                            #[trigger] left.expressions@[j],
                            row as int,
                            values@[j],
                            constraints@,
                        ) by {
                            if j < k {
                                assert(place_settled(
                                    fixed,
                                    rows@,
                                    left.expressions@[j],
                                    row as int,
                                    values@[j],
                                    before,
                                ));
                                assert forall|t: Trace| #[trigger]
                                    completes(t, fixed, rows@) && obeys_all(
                                        t,
                                        row as int,
                                        constraints@,
                                    ) implies t.eval(left.expressions@[j], row as int)
                                    == values@[j] by {
                                    assert forall|i: int| 0 <= i < before.len() implies obeys(
                                        t,
                                        row as int,
                                        #[trigger] before[i],
                                    ) by {
                                        assert(constraints@[i] == before[i]);
                                    }
                                }
                            }
                        }
                    }
                }
                k += 1;
            }
            proof {
                if complete {
                    assert forall|t: Trace| #[trigger]
                        completes(t, fixed, rows@) && obeys_all(
                            t,
                            row as int,
                            constraints@,
                        ) implies t.holds_at(identity, row as int) by {
                        lemma_reads_table(fixed, rows@, t, *right, found);
                        assert forall|j: int| 0 <= j < left.expressions@.len() implies t.eval(
                            #[trigger] left.expressions@[j],
                            row as int,
                        ) == t.eval(right.expressions@[j], found) by {
                            assert(place_settled(
                                fixed,
                                rows@,
                                left.expressions@[j],
                                row as int,
                                values@[j],
                                constraints@,
                            ));
                        }
                        assert(t.is_match(*left, *right, row as int, found));
                    }
                }
            }
            proof {
                assert forall|right_row: int, j: int|
                    #![trigger candidate(fixed, rows@, *right, known_args(fixed, rows@, *left, row as int), right_row), left.expressions@[j]]
                    candidate(
                        fixed,
                        rows@,
                        *right,
                        known_args(fixed, rows@, *left, row as int),
                        right_row,
                    ) && 0 <= j < left.expressions@.len() && !refs_known(
                        rows@,
                        fixed.degree as int,
                        left.expressions@[j],
                        row as int,
                    ) && place_solvable(
                        fixed,
                        rows@,
                        left.expressions@[j],
                        row as int,
                        tuple_at(fixed, rows@, *right, right_row)[j],
                    ) implies place_settled(
                    fixed,
                    rows@,
                    left.expressions@[j],
                    row as int,
                    tuple_at(fixed, rows@, *right, right_row)[j],
                    constraints@,
                ) by {
                    assert(candidate(fixed, rows@, *right, args@, right_row));
                    assert(tuple_at(fixed, rows@, *right, right_row) == values@);
                }
            }
            if complete {
                Ok(EvalValue::complete(constraints))
            } else {
                Ok(EvalValue::incomplete(constraints, IncompleteCause::MultipleUnknowns))
            }
        },
    }
}

/// Two field elements whose difference is zero in the field are equal.
proof fn lemma_difference_zero(x: int, y: int, m: int)
    requires
        m > 0,
        0 <= x < m,
        0 <= y < m,
    ensures
        (x - y) % m == 0 <==> x == y,
{
    if x >= y {
        vstd::arithmetic::div_mod::lemma_small_mod((x - y) as nat, m as nat);
    } else {
        vstd::arithmetic::div_mod::lemma_mod_add_multiples_vanish(x - y, m);
        vstd::arithmetic::div_mod::lemma_small_mod((x - y + m) as nat, m as nat);
    }
}

/// What an attempt on an identity comes to: `None` for a contradiction,
/// else the status of the attempt.
pub open spec fn identity_status(
    fixed: &FixedData,
    cells: Cells,
    limits: Seq<Option<u64>>,
    identity: Identity,
    row: int,
) -> Option<EvalStatus> {
    match identity {
        Identity::Polynomial(e) => polynomial_status(fixed, cells, limits, e, row),
        Identity::Plookup(left, right) => lookup_status(fixed, cells, left, right, row),
    }
}

/// What an attempt that did not fail says of what it returns: the status
/// is the one that the known cells and the limits call for; the constraints
/// follow from the identity and the limits, and suffice where the attempt
/// is complete; a polynomial identity gives as many constraints as it solves
/// cells, and a lookup gives a constraint for every open place that follows
/// from the tuple of the table, and none where no tuple is found.
pub open spec fn attempt_meaning(
    fixed: &FixedData,
    cells: Cells,
    limits: Seq<Option<u64>>,
    identity: Identity,
    row: int,
    value: EvalValue,
) -> bool {
    &&& outcome_sound_within(fixed, cells, limits, identity, row, value)
    &&& identity_status(fixed, cells, limits, identity, row) == Some(value.status)
    &&& match identity {
        Identity::Polynomial(e) => value.constraints@.len() == polynomial_solves(
            fixed,
            cells,
            limits,
            e,
            row,
        ),
        Identity::Plookup(left, right) => {
            &&& value.status == EvalStatus::Incomplete(IncompleteCause::MultipleUnknowns)
                ==> lookup_learned(fixed, cells, left, right, row, value.constraints@)
            &&& value.status != EvalStatus::Complete && value.status
                != EvalStatus::Incomplete(IncompleteCause::MultipleUnknowns)
                ==> value.constraints@.len() == 0
        },
    }
}

/// Learns from an identity on a row. The limits are those of the columns
/// that are known to stay below a limit. The constraints that are found
/// follow from the identity and the limits, and where the attempt is
/// complete they are all that the identity asks on the row. An error means
/// that the known cells contradict the identity, whatever the open cells
/// will hold within their limits.
pub fn process_identity(
    fixed: &FixedData,
    rows: &Rows,
    limits: &Vec<Option<u64>>,
    fixed_lookup: &mut FixedLookup,
    identity: &Identity,
    id: usize,
    row: usize,
) -> (r: EvalResult)
    requires
        fixed.wf(),
        rows.wf(fixed),
        limits@.len() == fixed.witness_count(),
        identity.wf(fixed.fixed_count(), fixed.witness_count()),
        row < fixed.degree,
    ensures
        match r {
            Ok(value) => attempt_meaning(fixed, rows@, limits@, *identity, row as int, value),
            Err(err) => {
                &&& err == EvalError::ConstraintUnsatisfiable { row, identity: id }
                &&& unsatisfiable_within(fixed, rows@, limits@, *identity, row as int)
                &&& identity_status(fixed, rows@, limits@, *identity, row as int) is None
            },
        },
{
    match identity {
        Identity::Polynomial(e) => process_polynomial(fixed, rows, limits, e, id, row),
        Identity::Plookup(left, right) => process_lookup(
            fixed,
            rows,
            fixed_lookup,
            left,
            right,
            id,
            row,
        ),
    }
}

} // verus!
