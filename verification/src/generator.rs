//! The solver that goes through the rows of the trace.
//!
//! The rows are solved in increasing order. On each row the identities are
//! attempted in passes until a pass finds nothing new; then every cell of the
//! row that the solver owns must be known. An identity that reads the next row
//! fixes cells there, and on the last row the next row is the first one, whose
//! cells are known by then: the identity is judged against them. After the
//! last row every identity is judged again on every row, with all cells
//! known, so a run that succeeds has found a solution.

use vstd::prelude::*;
use crate::analyzed::{identities_wf, Identity, PolyID, PolynomialType};
use crate::eval_result::{Cell, Constraint, EvalError};
use crate::expression_evaluator::{next_row, target_row};
use crate::global_constraints::GlobalConstraints;
use crate::eval_result::EvalValue;
use crate::identity_processor::{
    identity_status,
    attempt_meaning,
    constraints_wf,
    keeps,
    process_identity,
    unsatisfiable_within,
};
use crate::rows::completes;
use crate::trace::Trace;
use crate::verdict::{check_identity, determined, reads_open, Verdict};
use crate::machines::fixed_lookup::FixedLookup;
use crate::query_processor::{answer_outcome, process_query, query_text};
use crate::range_constraints::RangeConstraint;
use crate::rows::{column_known, extends, lemma_trace_of_wf, trace_of, Cells, Rows};
use crate::sequence_iterator::{SequenceIterator, Step};
use crate::machines::Machine;
use crate::{FixedData, MutableState, QueryCallback};

verus! {

/// The part of the constraint system that one solver is responsible for:
/// which of the identities it must satisfy and which of the witness columns
/// it fills, with the bounds that are known for the columns.
pub open spec fn task_wf(
    fixed: &FixedData,
    identities: Seq<Identity>,
    owned: Seq<bool>,
    witnesses: Seq<bool>,
    constraints: Seq<Option<RangeConstraint>>,
) -> bool {
    &&& fixed.wf()
    &&& identities_wf(identities, fixed.fixed_count(), fixed.witness_count())
    &&& owned.len() == identities.len()
    &&& witnesses.len() == fixed.witness_count()
    &&& constraints.len() == fixed.witness_count()
}

/// Every cell of every owned column is known.
pub open spec fn columns_known(witnesses: Seq<bool>, cells: Cells) -> bool {
    forall|c: int| 0 <= c < witnesses.len() && witnesses[c] ==> #[trigger] column_known(cells, c)
}

/// Every owned identity holds on every row.
pub open spec fn identities_hold(
    fixed: &FixedData,
    identities: Seq<Identity>,
    owned: Seq<bool>,
    cells: Cells,
) -> bool {
    forall|i: int, row: int|
        0 <= i < identities.len() && owned[i] && 0 <= row < fixed.degree ==> #[trigger] trace_of(
            fixed,
            cells,
        ).holds_at(identities[i], row)
}

/// Whether the cell is known and within the bound of its column, if the column has one.
pub open spec fn cell_in_range(
    constraints: Seq<Option<RangeConstraint>>,
    cells: Cells,
    column: int,
    row: int,
) -> bool {
    match cells[column][row] {
        Some(v) => match constraints[column] {
            Some(rc) => rc.allows(v),
            None => true,
        },
        None => false,
    }
}

/// Every cell of every owned column is known and within the bound of its column.
pub open spec fn ranges_respected(
    fixed: &FixedData,
    constraints: Seq<Option<RangeConstraint>>,
    witnesses: Seq<bool>,
    cells: Cells,
) -> bool {
    forall|c: int, row: int|
        0 <= c < witnesses.len() && witnesses[c] && 0 <= row < fixed.degree
            ==> #[trigger] cell_in_range(constraints, cells, c, row)
}

/// The known cells decide every owned identity on every row.
pub open spec fn identities_determined(
    fixed: &FixedData,
    identities: Seq<Identity>,
    owned: Seq<bool>,
    cells: Cells,
) -> bool {
    forall|i: int, row: int|
        0 <= i < identities.len() && owned[i] && 0 <= row < fixed.degree ==> #[trigger] determined(
            fixed,
            cells,
            identities[i],
            row,
        )
}

/// The work is finished and found good: every owned cell is known and within
/// the bound of its column, and the known cells decide that every owned
/// identity holds on every row.
pub open spec fn certified(
    fixed: &FixedData,
    identities: Seq<Identity>,
    owned: Seq<bool>,
    witnesses: Seq<bool>,
    constraints: Seq<Option<RangeConstraint>>,
    cells: Cells,
) -> bool {
    &&& columns_known(witnesses, cells)
    &&& ranges_respected(fixed, constraints, witnesses, cells)
    &&& identities_determined(fixed, identities, owned, cells)
    &&& identities_hold(fixed, identities, owned, cells)
}

/// The cells of the columns that are not owned are the same.
pub open spec fn others_unchanged(witnesses: Seq<bool>, new: Cells, old: Cells) -> bool {
    forall|c: int| 0 <= c < witnesses.len() && !witnesses[c] ==> #[trigger] new[c] == old[c]
}

/// The limits that a solver may count on: those of the columns that it owns.
pub open spec fn limits_of(
    witnesses: Seq<bool>,
    constraints: Seq<Option<RangeConstraint>>,
) -> Seq<Option<u64>> {
    Seq::new(
        constraints.len(),
        |c: int|
            if witnesses[c] {
                match constraints[c] {
                    Some(rc) => Some(rc.limit),
                    None => None,
                }
            } else {
                None
            },
    )
}

/// The limits that a solver may count on: those of the columns that it owns.
pub fn owned_limits(witnesses: &Vec<bool>, constraints: &GlobalConstraints) -> (r: Vec<
    Option<u64>,
>)
    requires
        witnesses@.len() == constraints.witness_constraints@.len(),
    ensures
        r@ == limits_of(witnesses@, constraints.witness_constraints@),
{
    let mut limits: Vec<Option<u64>> = Vec::new();
    let mut c: usize = 0;
    while c < witnesses.len()
        invariant
            witnesses@.len() == constraints.witness_constraints@.len(),
            c <= witnesses@.len(),
            limits@.len() == c,
            forall|k: int|
                0 <= k < c ==> #[trigger] limits@[k] == limits_of(
                    witnesses@,
                    constraints.witness_constraints@,
                )[k],
        decreases witnesses.len() - c,
    {
        let limit: Option<u64> = if witnesses[c] {
            match &constraints.witness_constraints[c] {
                Some(rc) => Some(rc.limit),
                None => None,
            }
        } else {
            None
        };
        limits.push(limit);
        c += 1;
    }
    assert(limits@ =~= limits_of(witnesses@, constraints.witness_constraints@));
    limits
}

/// Cells that are known and within the bounds of the owned columns make a
/// trace that keeps the limits that the solver counts on.
pub proof fn lemma_keeps_limits(
    fixed: &FixedData,
    witnesses: Seq<bool>,
    constraints: Seq<Option<RangeConstraint>>,
    cells: Cells,
)
    requires
        fixed.wf(),
        crate::rows::cells_wf(fixed, cells),
        witnesses.len() == fixed.witness_count(),
        constraints.len() == fixed.witness_count(),
        ranges_respected(fixed, constraints, witnesses, cells),
    ensures
        keeps(trace_of(fixed, cells), limits_of(witnesses, constraints)),
{
    let t = trace_of(fixed, cells);
    let limits = limits_of(witnesses, constraints);
    assert forall|c: int, r: int| 0 <= c < limits.len() && 0 <= r < t.degree implies match limits[c] {
        Some(l) => (#[trigger] t.witness[c][r]) < l,
        None => true,
    } by {
        if limits[c] is Some {
            assert(cell_in_range(constraints, cells, c, r));
            assert(cells[c].len() == fixed.degree);
        }
    }
}

/// What an error says of the cells that the solver was left with.
pub open spec fn failure_meaning(
    e: EvalError,
    fixed: &FixedData,
    identities: Seq<Identity>,
    owned: Seq<bool>,
    witnesses: Seq<bool>,
    constraints: Seq<Option<RangeConstraint>>,
    cells: Cells,
) -> bool {
    match e {
        EvalError::ConstraintUnsatisfiable { row, identity } => {
            &&& identity < identities.len()
            &&& owned[identity as int]
            &&& row < fixed.degree
            &&& unsatisfiable_within(
                fixed,
                cells,
                limits_of(witnesses, constraints),
                identities[identity as int],
                row as int,
            )
        },
        EvalError::Stuck { row, column } => {
            &&& column < witnesses.len()
            &&& witnesses[column as int]
            &&& row < fixed.degree
            &&& cells[column as int][row as int] is None
        },
        EvalError::Unresolved { row, identity } => {
            &&& identity < identities.len()
            &&& owned[identity as int]
            &&& row < fixed.degree
            &&& reads_open(fixed, cells, identities[identity as int])
            &&& !determined(fixed, cells, identities[identity as int], row as int)
            &&& columns_known(witnesses, cells)
        },
        EvalError::RangeConstraintViolated { row, column } => {
            &&& column < witnesses.len()
            &&& witnesses[column as int]
            &&& row < fixed.degree
            &&& cells[column as int][row as int] is Some
            &&& !cell_in_range(constraints, cells, column as int, row as int)
        },
    }
}

/// Work that failed is not finished and found good.
pub proof fn lemma_failure_not_certified(
    e: EvalError,
    fixed: &FixedData,
    identities: Seq<Identity>,
    owned: Seq<bool>,
    witnesses: Seq<bool>,
    constraints: Seq<Option<RangeConstraint>>,
    cells: Cells,
)
    requires
        fixed.wf(),
        crate::rows::cells_wf(fixed, cells),
        witnesses.len() == fixed.witness_count(),
        constraints.len() == fixed.witness_count(),
        failure_meaning(e, fixed, identities, owned, witnesses, constraints, cells),
    ensures
        !certified(fixed, identities, owned, witnesses, constraints, cells),
{
    lemma_trace_of_wf(fixed, cells);
    match e {
        EvalError::ConstraintUnsatisfiable { row, identity } => {
            if certified(fixed, identities, owned, witnesses, constraints, cells) {
                lemma_keeps_limits(fixed, witnesses, constraints, cells);
                assert(!trace_of(fixed, cells).holds_at(identities[identity as int], row as int));
            }
        },
        EvalError::Stuck { row, column } => {
            if columns_known(witnesses, cells) {
                assert(column_known(cells, column as int));
                assert(cells[column as int].len() == fixed.degree);
            }
        },
        EvalError::Unresolved { row, identity } => {},
        EvalError::RangeConstraintViolated { row, column } => {},
    }
}

/// The cells after one constraint is applied: the cell that it is about
/// gets the assigned value if it is open and in an owned column.
pub open spec fn applied_one(
    fixed: &FixedData,
    witnesses: Seq<bool>,
    cells: Cells,
    row: int,
    constraint: (Cell, Constraint),
) -> Cells {
    let column = constraint.0.column as int;
    let target = target_row(fixed.degree as int, row, constraint.0.next);
    match constraint.1 {
        Constraint::Assignment(v) => if witnesses[column] && cells[column][target] is None {
            cells.update(column, cells[column].update(target, Some(v)))
        } else {
            cells
        },
    }
}

/// The cells after the first `n` constraints are applied in turn.
pub open spec fn applied(
    fixed: &FixedData,
    witnesses: Seq<bool>,
    cells: Cells,
    row: int,
    constraints: Seq<(Cell, Constraint)>,
    n: int,
) -> Cells
    decreases n,
{
    if n <= 0 {
        cells
    } else {
        applied_one(
            fixed,
            witnesses,
            applied(fixed, witnesses, cells, row, constraints, n - 1),
            row,
            constraints[n - 1],
        )
    }
}

/// Makes known what the constraints say of open cells in owned columns.
/// Reports whether a cell became known.
pub fn apply_constraints(
    fixed: &FixedData,
    witnesses: &Vec<bool>,
    rows: &mut Rows,
    constraints: &Vec<(Cell, Constraint)>,
    row: usize,
) -> (progress: bool)
    requires
        fixed.wf(),
        old(rows).wf(fixed),
        witnesses@.len() == fixed.witness_count(),
        constraints_wf(fixed, constraints@),
        row < fixed.degree,
    ensures
        final(rows).wf(fixed),
        final(rows)@ == applied(
            fixed,
            witnesses@,
            old(rows)@,
            row as int,
            constraints@,
            constraints@.len() as int,
        ),
        extends(final(rows)@, old(rows)@),
        others_unchanged(witnesses@, final(rows)@, old(rows)@),
        progress == (final(rows)@ != old(rows)@),
{
    let mut progress: bool = false;
    let ghost mut changed: (int, int) = (0, 0);
    let mut j: usize = 0;
    while j < constraints.len()
        invariant
            fixed.wf(),
            rows.wf(fixed),
            witnesses@.len() == fixed.witness_count(),
            constraints_wf(fixed, constraints@),
            row < fixed.degree,
            j <= constraints@.len(),
            rows@ == applied(fixed, witnesses@, old(rows)@, row as int, constraints@, j as int),
            extends(rows@, old(rows)@),
            others_unchanged(witnesses@, rows@, old(rows)@),
            !progress ==> rows@ == old(rows)@,
            progress ==> 0 <= changed.0 < fixed.witness_count() && 0 <= changed.1 < fixed.degree
                && old(rows)@[changed.0][changed.1] is None && rows@[changed.0][changed.1] is Some,
        decreases constraints.len() - j,
    {
        let cell: Cell = constraints[j].0;
        let target: usize = if cell.next {
            next_row(fixed, row)
        } else {
            row
        };
        match constraints[j].1 {
            Constraint::Assignment(value) => {
                if witnesses[cell.column] && rows.get(fixed, cell.column, target).is_none() {
                    let ghost before = rows@;
                    rows.set(fixed, cell.column, target, value);
                    proof {
                        crate::rows::lemma_extends_transitive(old(rows)@, before, rows@);
                        if !progress {
                            changed = (cell.column as int, target as int);
                        } else {
                            assert(before[changed.0].len() == fixed.degree);
                            assert(rows@[changed.0][changed.1] == before[changed.0][changed.1]);
                        }
                    }
                    progress = true;
                }
            },
        }
        j += 1;
    }
    progress
}

/// Whether the cell of the column on the row is one to ask for: the column
/// is owned and has a query, and the cell is open.
pub open spec fn can_ask(
    fixed: &FixedData,
    witnesses: Seq<bool>,
    cells: Cells,
    column: int,
    row: int,
) -> bool {
    &&& 0 <= column < witnesses.len()
    &&& witnesses[column]
    &&& cells[column][row] is None
    &&& fixed.witness_cols.values@[column].query is Some
}

/// Whether no query can be asked on the row: of every cell to ask for, the
/// text of the query cannot be written, because it reads an open cell.
pub open spec fn nothing_to_ask(
    fixed: &FixedData,
    witnesses: Seq<bool>,
    cells: Cells,
    row: int,
) -> bool {
    forall|c: int| #[trigger]
        can_ask(fixed, witnesses, cells, c, row) ==> query_text(
            fixed,
            cells,
            fixed.witness_cols.values@[c].query->0.expr.items@,
            row,
        ) is None
}

/// The cells of a row after the first `n` columns had their turn with the
/// query callback, where `answers` holds for each column what the callback
/// said when it was asked for it. A column's cell is asked for if it is one
/// to ask for and the text of its query can be written from the cells as
/// they are by then; an answer becomes the value of the cell, as the field
/// element that it stands for.
pub open spec fn answered(
    fixed: &FixedData,
    witnesses: Seq<bool>,
    cells: Cells,
    row: int,
    answers: Seq<Option<u64>>,
    n: int,
) -> Cells
    decreases n,
{
    if n <= 0 {
        cells
    } else {
        let before = answered(fixed, witnesses, cells, row, answers, n - 1);
        let c = n - 1;
        if can_ask(fixed, witnesses, before, c, row) && query_text(
            fixed,
            before,
            fixed.witness_cols.values@[c].query->0.expr.items@,
            row,
        ) is Some {
            match answers[c] {
                Some(v) => before.update(
                    c,
                    before[c].update(row, Some((v % fixed.field.modulus) as u64)),
                ),
                None => before,
            }
        } else {
            before
        }
    }
}

/// The cells after the first `n` columns had their turn depend on the
/// answers for these columns only.
proof fn lemma_answered_prefix(
    fixed: &FixedData,
    witnesses: Seq<bool>,
    cells: Cells,
    row: int,
    answers: Seq<Option<u64>>,
    more: Seq<Option<u64>>,
    n: int,
)
    requires
        0 <= n <= answers.len() <= more.len(),
        forall|c: int| 0 <= c < n ==> answers[c] == more[c],
    ensures
        answered(fixed, witnesses, cells, row, answers, n) == answered(
            fixed,
            witnesses,
            cells,
            row,
            more,
            n,
        ),
    decreases n,
{
    if n > 0 {
        lemma_answered_prefix(fixed, witnesses, cells, row, answers, more, n - 1);
    }
}

/// Asks the query callback for the cells of the row that are open, are owned
/// and have a query, in the order of the columns. An answer becomes the
/// value of the cell. Reports whether a cell became known.
///
/// What the callback answers is not known here. Whatever it answers, the
/// cells are then what `answered` makes of the answers: only cells to ask
/// for change, each to the field element that its answer stands for, and
/// the report tells exactly whether one did. Where no query can be asked,
/// nothing changes.
pub fn ask_queries<Q: QueryCallback>(
    fixed: &FixedData,
    witnesses: &Vec<bool>,
    rows: &mut Rows,
    query_callback: &mut Q,
    row: usize,
) -> (progress: bool)
    requires
        fixed.wf(),
        old(rows).wf(fixed),
        witnesses@.len() == fixed.witness_count(),
        row < fixed.degree,
    ensures
        final(rows).wf(fixed),
        extends(final(rows)@, old(rows)@),
        others_unchanged(witnesses@, final(rows)@, old(rows)@),
        progress == (final(rows)@ != old(rows)@),
        forall|c: int, r: int|
            0 <= c < fixed.witness_count() && 0 <= r < fixed.degree && (
            #[trigger] final(rows)@[c][r]) != old(rows)@[c][r] ==> r == row && can_ask(
                fixed,
                witnesses@,
                old(rows)@,
                c,
                row as int,
            ),
        nothing_to_ask(fixed, witnesses@, old(rows)@, row as int) ==> final(rows)@ == old(rows)@,
        exists|answers: Seq<Option<u64>>|
            answers.len() == fixed.witness_count() && #[trigger] answered(
                fixed,
                witnesses@,
                old(rows)@,
                row as int,
                answers,
                fixed.witness_count() as int,
            ) == final(rows)@,
{
    let mut progress: bool = false;
    let width: usize = fixed.witness_cols.len();
    let mut column: usize = 0;
    let ghost mut answers: Seq<Option<u64>> = Seq::empty();
    while column < width
        invariant
            answers.len() == column,
            answered(fixed, witnesses@, old(rows)@, row as int, answers, column as int) == rows@,
            fixed.wf(),
            rows.wf(fixed),
            witnesses@.len() == fixed.witness_count(),
            width == fixed.witness_count(),
            row < fixed.degree,
            column <= width,
            extends(rows@, old(rows)@),
            others_unchanged(witnesses@, rows@, old(rows)@),
            progress == (rows@ != old(rows)@),
            forall|c: int, r: int|
                0 <= c < fixed.witness_count() && 0 <= r < fixed.degree && (
                #[trigger] rows@[c][r]) != old(rows)@[c][r] ==> r == row && c < column && can_ask(
                    fixed,
                    witnesses@,
                    old(rows)@,
                    c,
                    row as int,
                ),
            nothing_to_ask(fixed, witnesses@, old(rows)@, row as int) ==> rows@ == old(rows)@,
        decreases width - column,
    {
        let ghost earlier = answers;
        let ghost mut answer: Option<u64> = None;
        let ghost entered = rows@;
        if witnesses[column] && rows.get(fixed, column, row).is_none() {
            match &fixed.witness_cols.values[column].query {
                Some(query) => {
                    let ghost before = rows@;
                    let outcome = process_query(fixed, rows, query_callback, query, column, row);
                    let changed: bool = apply_constraints(
                        fixed,
                        witnesses,
                        rows,
                        &outcome.constraints,
                        row,
                    );
                    proof {
                        if query_text(fixed, before, query.expr.items@, row as int) is Some {
                            answer = choose|a: Option<u64>| #[trigger]
                                answer_outcome(fixed, column, a, outcome);
                            reveal_with_fuel(applied, 2);
                            assert(target_row(fixed.degree as int, row as int, false) == row);
                            assert(before[column as int].len() == fixed.degree);
                        } else {
                            reveal_with_fuel(applied, 2);
                        }
                        crate::rows::lemma_extends_transitive(old(rows)@, before, rows@);
                        lemma_one_assignment(
                            fixed,
                            witnesses@,
                            before,
                            row as int,
                            outcome.constraints@,
                            column,
                        );
                        // The cell was open from the start: a known cell keeps its value.
                        assert(before[column as int].len() == fixed.degree);
                        assert(old(rows)@[column as int][row as int] is None);
                        assert(can_ask(fixed, witnesses@, old(rows)@, column as int, row as int));
                        if changed {
                            assert(rows@[column as int][row as int] != before[column as int][row as int]);
                            assert(rows@[column as int][row as int] != old(rows)@[column as int][row as int]);
                        }
                        assert forall|c: int, r: int|
                            0 <= c < fixed.witness_count() && 0 <= r < fixed.degree && (
                            #[trigger] rows@[c][r]) != old(rows)@[c][r] implies r == row && c
                            < column + 1 && can_ask(
                            fixed,
                            witnesses@,
                            old(rows)@,
                            c,
                            row as int,
                        ) by {
                            if !(c == column && r == row) {
                                assert(rows@[c][r] == before[c][r]);
                            }
                        }
                    }
                    if changed {
                        progress = true;
                    }
                },
                None => {},
            }
        }
        proof {
            answers = earlier.push(answer);
            lemma_answered_prefix(
                fixed,
                witnesses@,
                old(rows)@,
                row as int,
                earlier,
                answers,
                column as int,
            );
            assert(answered(fixed, witnesses@, old(rows)@, row as int, answers, column as int)
                == entered);
            assert(answers[column as int] == answer);
            assert(entered[column as int].len() == fixed.degree);
        }
        column += 1;
    }
    progress
}

/// Where at most one constraint assigns a value to the cell of a column on
/// the row, applying changes that cell at most, and only if it is open.
proof fn lemma_one_assignment(
    fixed: &FixedData,
    witnesses: Seq<bool>,
    cells: Cells,
    row: int,
    constraints: Seq<(Cell, Constraint)>,
    column: usize,
)
    requires
        fixed.wf(),
        crate::rows::cells_wf(fixed, cells),
        witnesses.len() == fixed.witness_count(),
        column < fixed.witness_count(),
        0 <= row < fixed.degree,
        constraints.len() <= 1,
        forall|j: int|
            0 <= j < constraints.len() ==> (#[trigger] constraints[j]).0 == (Cell {
                column,
                next: false,
            }),
    ensures
        ({
            let after = applied(fixed, witnesses, cells, row, constraints, constraints.len() as int);
            &&& after.len() == cells.len()
            &&& forall|c: int, r: int|
                0 <= c < cells.len() && 0 <= r < fixed.degree && !(c == column && r == row)
                    ==> #[trigger] after[c][r] == cells[c][r]
            &&& after != cells ==> cells[column as int][row] is None
                && after[column as int][row] is Some
            &&& constraints.len() == 0 ==> after == cells
        }),
{
    reveal_with_fuel(applied, 2);
    let after = applied(fixed, witnesses, cells, row, constraints, constraints.len() as int);
    if constraints.len() == 1 {
        let first = constraints[0];
        assert(first.0 == (Cell { column, next: false }));
        assert(applied(fixed, witnesses, cells, row, constraints, 0) == cells);
        assert(after == applied_one(fixed, witnesses, cells, row, first));
        assert(target_row(fixed.degree as int, row, false) == row);
        assert(cells[column as int].len() == fixed.degree);
        match first.1 {
            Constraint::Assignment(v) => {
                if witnesses[column as int] && cells[column as int][row] is None {
                    let changed = cells.update(
                        column as int,
                        cells[column as int].update(row, Some(v)),
                    );
                    assert(after == changed);
                    assert(after[column as int][row] == Some(v));
                } else {
                    assert(after == cells);
                }
            },
        }
    } else {
        assert(after == cells);
    }
}

/// The first owned column whose cell on the row is open, if there is one.
pub fn first_open_cell(fixed: &FixedData, witnesses: &Vec<bool>, rows: &Rows, row: usize) -> (r:
    Option<usize>)
    requires
        fixed.wf(),
        rows.wf(fixed),
        witnesses@.len() == fixed.witness_count(),
        row < fixed.degree,
    ensures
        match r {
            Some(column) => column < witnesses@.len() && witnesses@[column as int]
                && rows@[column as int][row as int] is None && forall|c: int|
                0 <= c < column && witnesses@[c] ==> (#[trigger] rows@[c])[row as int] is Some,
            None => forall|c: int|
                0 <= c < witnesses@.len() && witnesses@[c] ==> (#[trigger] rows@[c])[row as int] is Some,
        },
{
    let width: usize = fixed.witness_cols.len();
    let mut column: usize = 0;
    while column < width
        invariant
            fixed.wf(),
            rows.wf(fixed),
            witnesses@.len() == fixed.witness_count(),
            width == fixed.witness_count(),
            row < fixed.degree,
            column <= width,
            forall|c: int|
                0 <= c < column && witnesses@[c] ==> (#[trigger] rows@[c])[row as int] is Some,
        decreases width - column,
    {
        if witnesses[column] && rows.get(fixed, column, row).is_none() {
            return Some(column);
        }
        column += 1;
    }
    None
}

/// The first owned column whose cell on the row is known and outside the
/// bound of the column, if there is one.
pub fn first_out_of_range(
    fixed: &FixedData,
    witnesses: &Vec<bool>,
    constraints: &GlobalConstraints,
    rows: &Rows,
    row: usize,
) -> (r: Option<usize>)
    requires
        fixed.wf(),
        rows.wf(fixed),
        witnesses@.len() == fixed.witness_count(),
        constraints.witness_constraints@.len() == fixed.witness_count(),
        row < fixed.degree,
    ensures
        match r {
            Some(column) => column < witnesses@.len() && witnesses@[column as int]
                && rows@[column as int][row as int] is Some && !cell_in_range(
                constraints.witness_constraints@,
                rows@,
                column as int,
                row as int,
            ) && forall|c: int|
                0 <= c < column && witnesses@[c] && rows@[c][row as int] is Some
                    ==> #[trigger] cell_in_range(
                    constraints.witness_constraints@,
                    rows@,
                    c,
                    row as int,
                ),
            None => forall|c: int|
                0 <= c < witnesses@.len() && witnesses@[c] && rows@[c][row as int] is Some
                    ==> #[trigger] cell_in_range(
                    constraints.witness_constraints@,
                    rows@,
                    c,
                    row as int,
                ),
        },
{
    let width: usize = fixed.witness_cols.len();
    let mut column: usize = 0;
    while column < width
        invariant
            fixed.wf(),
            rows.wf(fixed),
            witnesses@.len() == fixed.witness_count(),
            constraints.witness_constraints@.len() == fixed.witness_count(),
            width == fixed.witness_count(),
            row < fixed.degree,
            column <= width,
            forall|c: int|
                0 <= c < column && witnesses@[c] && rows@[c][row as int] is Some
                    ==> #[trigger] cell_in_range(
                    constraints.witness_constraints@,
                    rows@,
                    c,
                    row as int,
                ),
        decreases width - column,
    {
        if witnesses[column] {
            match (rows.get(fixed, column, row), &constraints.witness_constraints[column]) {
                (Some(value), Some(rc)) => {
                    if !rc.check(value) {
                        return Some(column);
                    }
                },
                _ => {},
            }
        }
        column += 1;
    }
    None
}

/// Whether an attempt on the identity finds nothing new on the row: what
/// it returns, applied to the cells, leaves them as they are.
pub open spec fn closed_for(
    fixed: &FixedData,
    identities: Seq<Identity>,
    witnesses: Seq<bool>,
    constraints: Seq<Option<RangeConstraint>>,
    cells: Cells,
    row: int,
    i: int,
) -> bool {
    exists|value: EvalValue| #[trigger]
        attempt_meaning(
            fixed,
            cells,
            limits_of(witnesses, constraints),
            identities[i],
            row,
            value,
        ) && applied(
            fixed,
            witnesses,
            cells,
            row,
            value.constraints@,
            value.constraints@.len() as int,
        ) == cells
}

/// Whether the row is closed: no owned identity contradicts the known
/// cells on it, and an attempt on any of them finds nothing new.
pub open spec fn row_closed(
    fixed: &FixedData,
    identities: Seq<Identity>,
    owned: Seq<bool>,
    witnesses: Seq<bool>,
    constraints: Seq<Option<RangeConstraint>>,
    cells: Cells,
    row: int,
) -> bool {
    forall|i: int|
        0 <= i < identities.len() && owned[i] ==> #[trigger] closed_for(
            fixed,
            identities,
            witnesses,
            constraints,
            cells,
            row,
            i,
        )
}

/// Whether no cell of the row is one to ask for.
pub open spec fn quiet_row(fixed: &FixedData, witnesses: Seq<bool>, cells: Cells, row: int) -> bool {
    forall|c: int| !#[trigger] can_ask(fixed, witnesses, cells, c, row)
}

/// Whether the trace gives the known cells their values, keeps the owned
/// columns below their limits and satisfies the owned identities on the row.
pub open spec fn solves_row(
    t: Trace,
    fixed: &FixedData,
    identities: Seq<Identity>,
    owned: Seq<bool>,
    witnesses: Seq<bool>,
    constraints: Seq<Option<RangeConstraint>>,
    cells: Cells,
    row: int,
) -> bool {
    &&& completes(t, fixed, cells)
    &&& keeps(t, limits_of(witnesses, constraints))
    &&& forall|i: int|
        0 <= i < identities.len() && owned[i] ==> t.holds_at(#[trigger] identities[i], row)
}

/// Whether what became known on the row follows from what was known:
/// every trace that solved the row before gives the new cells their values.
pub open spec fn follows_on_row(
    fixed: &FixedData,
    identities: Seq<Identity>,
    owned: Seq<bool>,
    witnesses: Seq<bool>,
    constraints: Seq<Option<RangeConstraint>>,
    new: Cells,
    old: Cells,
    row: int,
) -> bool {
    forall|t: Trace| #[trigger]
        solves_row(t, fixed, identities, owned, witnesses, constraints, old, row) ==> completes(
            t,
            fixed,
            new,
        )
}

/// The row that an error names.
pub open spec fn error_row(e: EvalError) -> usize {
    match e {
        EvalError::ConstraintUnsatisfiable { row, identity } => row,
        EvalError::Stuck { row, column } => row,
        EvalError::Unresolved { row, identity } => row,
        EvalError::RangeConstraintViolated { row, column } => row,
    }
}

/// A trace that gives cells their values and obeys constraints gives the
/// cells their values after the constraints are applied.
pub proof fn lemma_applied_completes(
    fixed: &FixedData,
    witnesses: Seq<bool>,
    cells: Cells,
    row: int,
    constraints: Seq<(Cell, Constraint)>,
    n: int,
    t: Trace,
)
    requires
        fixed.wf(),
        crate::rows::cells_wf(fixed, cells),
        witnesses.len() == fixed.witness_count(),
        constraints_wf(fixed, constraints),
        0 <= row < fixed.degree,
        0 <= n <= constraints.len(),
        completes(t, fixed, cells),
        crate::identity_processor::obeys_all(t, row, constraints),
    ensures
        completes(t, fixed, applied(fixed, witnesses, cells, row, constraints, n)),
        crate::rows::cells_wf(fixed, applied(fixed, witnesses, cells, row, constraints, n)),
    decreases n,
{
    if n > 0 {
        lemma_applied_completes(fixed, witnesses, cells, row, constraints, n - 1, t);
        let before = applied(fixed, witnesses, cells, row, constraints, n - 1);
        let after = applied(fixed, witnesses, cells, row, constraints, n);
        let constraint = constraints[n - 1];
        let column = constraint.0.column as int;
        let target = target_row(fixed.degree as int, row, constraint.0.next);
        assert(crate::identity_processor::obeys(t, row, constraint));
        assert(target == t.target_row(row, constraint.0.next));
        assert(before[column].len() == fixed.degree);
        match constraint.1 {
            Constraint::Assignment(v) => {
                if witnesses[column] && before[column][target] is None {
                    assert(after == before.update(column, before[column].update(target, Some(v))));
                    assert forall|c: int, r: int|
                        0 <= c < after.len() && 0 <= r < after[c].len() implies match #[trigger] after[c][r] {
                        Some(x) => t.witness[c][r] == x,
                        None => true,
                    } by {
                        if !(c == column && r == target) {
                            assert(after[c][r] == before[c][r]);
                        }
                    }
                    assert forall|c: int, r: int|
                        0 <= c < after.len() && 0 <= r < fixed.degree implies match #[trigger] after[c][r] {
                        Some(x) => x < fixed.field.modulus,
                        None => true,
                    } by {
                        if !(c == column && r == target) {
                            assert(after[c][r] == before[c][r]);
                        }
                    }
                    assert forall|c: int| 0 <= c < after.len() implies (#[trigger] after[c]).len()
                        == fixed.degree by {
                        if c != column {
                            assert(after[c] == before[c]);
                        }
                    }
                } else {
                    assert(after == before);
                }
            },
        }
    }
}

/// The state of the work on a row: the cells, and where the passes stand.
pub struct RowState {
    pub cells: Cells,
    pub sequence: SequenceIterator,
}

/// The passes after a step: a step that changed the cells has made progress.
pub open spec fn noted(sequence: SequenceIterator, changed: bool) -> SequenceIterator {
    if changed {
        SequenceIterator { progress: true, ..sequence }
    } else {
        sequence
    }
}

/// Whether one step of the work on a row leads from the state `a` to the
/// state `b`. The step is the one that the passes yield. An identity that
/// is owned is attempted on the cells, and what the attempt returns is
/// applied; an identity that is not owned is passed over. On the step for
/// the queries the query callback is asked, and its answers become values.
/// No step follows on a contradiction or at the end of the passes.
pub open spec fn row_step(
    fixed: &FixedData,
    identities: Seq<Identity>,
    owned: Seq<bool>,
    witnesses: Seq<bool>,
    constraints: Seq<Option<RangeConstraint>>,
    row: int,
    a: RowState,
    b: RowState,
) -> bool {
    match a.sequence.upcoming() {
        None => false,
        Some(Step::Identity(i)) => if owned[i as int] {
            exists|value: EvalValue| #[trigger]
                attempt_meaning(
                    fixed,
                    a.cells,
                    limits_of(witnesses, constraints),
                    identities[i as int],
                    row,
                    value,
                ) && b.cells == applied(
                    fixed,
                    witnesses,
                    a.cells,
                    row,
                    value.constraints@,
                    value.constraints@.len() as int,
                ) && b.sequence == noted(a.sequence.advanced(), b.cells != a.cells)
        } else {
            b.cells == a.cells && b.sequence == a.sequence.advanced()
        },
        Some(Step::Queries) => exists|answers: Seq<Option<u64>>|
            answers.len() == witnesses.len() && #[trigger] answered(
                fixed,
                witnesses,
                a.cells,
                row,
                answers,
                witnesses.len() as int,
            ) == b.cells && b.sequence == noted(a.sequence.advanced(), b.cells != a.cells),
    }
}

/// Whether the states are those of the work on a row, from the first pass
/// on the cells `start` on, each leading to the next by one step.
pub open spec fn row_run(
    fixed: &FixedData,
    identities: Seq<Identity>,
    owned: Seq<bool>,
    witnesses: Seq<bool>,
    constraints: Seq<Option<RangeConstraint>>,
    row: int,
    start: Cells,
    states: Seq<RowState>,
) -> bool {
    &&& states.len() >= 1
    &&& states[0] == (RowState {
        cells: start,
        sequence: SequenceIterator {
            identities: identities.len() as usize,
            position: 0,
            queried: false,
            progress: false,
        },
    })
    &&& forall|k: int|
        0 <= k < states.len() - 1 ==> row_step(
            fixed,
            identities,
            owned,
            witnesses,
            constraints,
            row,
            #[trigger] states[k],
            states[k + 1],
        )
}

/// Whether the work on a row ends in the state `last` with the result: with
/// a contradiction where the identity that is next contradicts the cells;
/// else at the end of the passes, with the first open cell of the row as
/// stuck, or else with the first cell that is not within its bound, or
/// else with success.
pub open spec fn row_outcome(
    fixed: &FixedData,
    identities: Seq<Identity>,
    owned: Seq<bool>,
    witnesses: Seq<bool>,
    constraints: Seq<Option<RangeConstraint>>,
    row: int,
    last: RowState,
    r: Result<(), EvalError>,
) -> bool {
    match r {
        Err(EvalError::ConstraintUnsatisfiable { row: at, identity }) => {
            &&& at == row
            &&& last.sequence.upcoming() == Some(Step::Identity(identity))
            &&& owned[identity as int]
            &&& identity_status(
                fixed,
                last.cells,
                limits_of(witnesses, constraints),
                identities[identity as int],
                row,
            ) is None
        },
        Err(EvalError::Stuck { row: at, column }) => {
            &&& at == row
            &&& last.sequence.upcoming() is None
            &&& column < witnesses.len()
            &&& witnesses[column as int]
            &&& last.cells[column as int][row] is None
            &&& forall|c: int|
                0 <= c < column && witnesses[c] ==> (#[trigger] last.cells[c])[row] is Some
        },
        Err(EvalError::RangeConstraintViolated { row: at, column }) => {
            &&& at == row
            &&& last.sequence.upcoming() is None
            &&& forall|c: int|
                0 <= c < witnesses.len() && witnesses[c] ==> (#[trigger] last.cells[c])[row] is Some
            &&& column < witnesses.len()
            &&& witnesses[column as int]
            &&& !cell_in_range(constraints, last.cells, column as int, row)
            &&& forall|c: int|
                0 <= c < column && witnesses[c] ==> #[trigger] cell_in_range(
                    constraints,
                    last.cells,
                    c,
                    row,
                )
        },
        Err(EvalError::Unresolved { row: at, identity }) => false,
        Ok(()) => {
            &&& last.sequence.upcoming() is None
            &&& forall|c: int|
                0 <= c < witnesses.len() && witnesses[c] ==> #[trigger] cell_in_range(
                    constraints,
                    last.cells,
                    c,
                    row,
                )
        },
    }
}

/// Whether the work on a row leads from the cells `before` to the cells
/// `after` and ends with the result.
pub open spec fn row_done(
    fixed: &FixedData,
    identities: Seq<Identity>,
    owned: Seq<bool>,
    witnesses: Seq<bool>,
    constraints: Seq<Option<RangeConstraint>>,
    row: int,
    before: Cells,
    after: Cells,
    r: Result<(), EvalError>,
) -> bool {
    exists|states: Seq<RowState>| #[trigger]
        row_run(fixed, identities, owned, witnesses, constraints, row, before, states)
            && states.last().cells == after && row_outcome(
            fixed,
            identities,
            owned,
            witnesses,
            constraints,
            row,
            states.last(),
            r,
        )
}

/// Whether the cells are those with which the work on each of the first
/// rows began, from the cells `start` on: the work on each of these rows but
/// the last succeeded and led to the cells for the next.
pub open spec fn rows_run(
    fixed: &FixedData,
    identities: Seq<Identity>,
    owned: Seq<bool>,
    witnesses: Seq<bool>,
    constraints: Seq<Option<RangeConstraint>>,
    start: Cells,
    marks: Seq<Cells>,
) -> bool {
    &&& marks.len() >= 1
    &&& marks[0] == start
    &&& forall|r: int|
        0 <= r < marks.len() - 1 ==> row_done(
            fixed,
            identities,
            owned,
            witnesses,
            constraints,
            r,
            #[trigger] marks[r],
            marks[r + 1],
            Ok(()),
        )
}

/// Solves one row: attempts the owned identities and the queries in passes
/// until a pass finds nothing new. The row is solved when every owned cell
/// of it is known and within the bound of its column.
///
/// The steps are those that `row_step` describes, from the first pass on,
/// and the result is the one that `row_outcome` gives for the last state.
///
/// Unless an identity is contradicted, the row is closed when the function
/// returns: an attempt on any owned identity finds nothing new. A cell is
/// reported as stuck only then, and it is the first open one of the row.
/// Where no cell of the row is one to ask for, all that became known follows
/// from the identities.
pub fn process_row<Q: QueryCallback>(
    fixed: &FixedData,
    identities: &Vec<Identity>,
    owned: &Vec<bool>,
    witnesses: &Vec<bool>,
    constraints: &GlobalConstraints,
    rows: &mut Rows,
    fixed_lookup: &mut FixedLookup,
    query_callback: &mut Q,
    row: usize,
) -> (r: Result<(), EvalError>)
    requires
        task_wf(fixed, identities@, owned@, witnesses@, constraints.witness_constraints@),
        old(rows).wf(fixed),
        row < fixed.degree,
    ensures
        final(rows).wf(fixed),
        extends(final(rows)@, old(rows)@),
        others_unchanged(witnesses@, final(rows)@, old(rows)@),
        match r {
            Ok(()) => forall|c: int|
                0 <= c < witnesses@.len() && witnesses@[c] ==> #[trigger] cell_in_range(
                    constraints.witness_constraints@,
                    final(rows)@,
                    c,
                    row as int,
                ),
            Err(e) => error_row(e) == row && failure_meaning(
                e,
                fixed,
                identities@,
                owned@,
                witnesses@,
                constraints.witness_constraints@,
                final(rows)@,
            ),
        },
        match r {
            Err(EvalError::ConstraintUnsatisfiable { row, identity }) => true,
            Err(EvalError::Stuck { row, column }) => row_closed(
                fixed,
                identities@,
                owned@,
                witnesses@,
                constraints.witness_constraints@,
                final(rows)@,
                row as int,
            ) && forall|c: int|
                0 <= c < column && witnesses@[c] ==> (#[trigger] final(rows)@[c])[row as int] is Some,
            _ => row_closed(
                fixed,
                identities@,
                owned@,
                witnesses@,
                constraints.witness_constraints@,
                final(rows)@,
                row as int,
            ),
        },
        quiet_row(fixed, witnesses@, old(rows)@, row as int) ==> follows_on_row(
            fixed,
            identities@,
            owned@,
            witnesses@,
            constraints.witness_constraints@,
            final(rows)@,
            old(rows)@,
            row as int,
        ),
        row_done(
            fixed,
            identities@,
            owned@,
            witnesses@,
            constraints.witness_constraints@,
            row as int,
            old(rows)@,
            final(rows)@,
            r,
        ),
{
    let limits: Vec<Option<u64>> = owned_limits(witnesses, constraints);
    let mut sequence: SequenceIterator = SequenceIterator::new(identities.len());
    let ghost bounds = constraints.witness_constraints@;
    let ghost mut states: Seq<RowState> = seq![RowState { cells: rows@, sequence }];
    loop
        invariant
            row_run(fixed, identities@, owned@, witnesses@, bounds, row as int, old(rows)@, states),
            states.last() == (RowState { cells: rows@, sequence }),
            task_wf(fixed, identities@, owned@, witnesses@, bounds),
            bounds == constraints.witness_constraints@,
            limits@ == limits_of(witnesses@, bounds),
            rows.wf(fixed),
            row < fixed.degree,
            sequence.wf(),
            sequence.identities == identities@.len(),
            extends(rows@, old(rows)@),
            others_unchanged(witnesses@, rows@, old(rows)@),
            !sequence.progress ==> forall|j: int|
                0 <= j < sequence.position && owned@[j] ==> #[trigger] closed_for(
                    fixed,
                    identities@,
                    witnesses@,
                    bounds,
                    rows@,
                    row as int,
                    j,
                ),
            quiet_row(fixed, witnesses@, old(rows)@, row as int) ==> follows_on_row(
                fixed,
                identities@,
                owned@,
                witnesses@,
                bounds,
                rows@,
                old(rows)@,
                row as int,
            ),
        ensures
            row_closed(fixed, identities@, owned@, witnesses@, bounds, rows@, row as int),
            sequence.upcoming() is None,
        decreases
                crate::rows::open_count(rows@) + (if sequence.progress {
                    1nat
                } else {
                    0nat
                }),
                sequence.steps_left(),
    {
        let ghost before = rows@;
        let ghost earlier = sequence;
        match sequence.next() {
            None => {
                break ;
            },
            Some(Step::Identity(i)) => {
                if owned[i] {
                    assert(identities@[i as int].wf(fixed.fixed_count(), fixed.witness_count()));
                    match process_identity(
                        fixed,
                        rows,
                        &limits,
                        fixed_lookup,
                        &identities[i],
                        i,
                        row,
                    ) {
                        Ok(value) => {
                            let changed: bool = apply_constraints(
                                fixed,
                                witnesses,
                                rows,
                                &value.constraints,
                                row,
                            );
                            proof {
                                if !changed {
                                    assert(closed_for(
                                        fixed,
                                        identities@,
                                        witnesses@,
                                        bounds,
                                        rows@,
                                        row as int,
                                        i as int,
                                    ));
                                }
                                if quiet_row(fixed, witnesses@, old(rows)@, row as int) {
                                    assert forall|t: Trace| #[trigger]
                                        solves_row(
                                            t,
                                            fixed,
                                            identities@,
                                            owned@,
                                            witnesses@,
                                            bounds,
                                            old(rows)@,
                                            row as int,
                                        ) implies completes(t, fixed, rows@) by {
                                        assert(completes(t, fixed, before));
                                        assert(t.holds_at(identities@[i as int], row as int));
                                        lemma_applied_completes(
                                            fixed,
                                            witnesses@,
                                            before,
                                            row as int,
                                            value.constraints@,
                                            value.constraints@.len() as int,
                                            t,
                                        );
                                    }
                                }
                            }
                            if changed {
                                sequence.report_progress();
                            }
                        },
                        Err(e) => {
                            assert(row_outcome(
                                fixed,
                                identities@,
                                owned@,
                                witnesses@,
                                bounds,
                                row as int,
                                states.last(),
                                Err(e),
                            ));
                            return Err(e);
                        },
                    }
                }
            },
            Some(Step::Queries) => {
                proof {
                    if quiet_row(fixed, witnesses@, old(rows)@, row as int) {
                        assert forall|c: int| #[trigger]
                            can_ask(fixed, witnesses@, before, c, row as int) implies false by {
                            assert(!can_ask(fixed, witnesses@, old(rows)@, c, row as int));
                            assert(before[c].len() == old(rows)@[c].len());
                            assert(old(rows)@[c].len() == fixed.degree);
                        }
                        assert(nothing_to_ask(fixed, witnesses@, before, row as int));
                    }
                }
                if ask_queries(fixed, witnesses, rows, query_callback, row) {
                    sequence.report_progress();
                }
            },
        }
        proof {
            crate::rows::lemma_extends_transitive(old(rows)@, before, rows@);
            crate::rows::lemma_fewer_open(rows@, before);
            let a = RowState { cells: before, sequence: earlier };
            let b = RowState { cells: rows@, sequence };
            assert(row_step(fixed, identities@, owned@, witnesses@, bounds, row as int, a, b));
            let earlier_states = states;
            states = earlier_states.push(b);
            assert forall|k: int| 0 <= k < states.len() - 1 implies row_step(
                fixed,
                identities@,
                owned@,
                witnesses@,
                bounds,
                row as int,
                #[trigger] states[k],
                states[k + 1],
            ) by {
                if k < earlier_states.len() - 1 {
                    assert(states[k] == earlier_states[k]);
                    assert(states[k + 1] == earlier_states[k + 1]);
                } else {
                    assert(states[k] == a);
                    assert(states[k + 1] == b);
                }
            }
        }
    }
    let r: Result<(), EvalError> = match first_open_cell(fixed, witnesses, rows, row) {
        Some(column) => Err(EvalError::Stuck { row, column }),
        None => match first_out_of_range(fixed, witnesses, constraints, rows, row) {
            Some(column) => Err(EvalError::RangeConstraintViolated { row, column }),
            None => Ok(()),
        },
    };
    proof {
        assert(row_outcome(
            fixed,
            identities@,
            owned@,
            witnesses@,
            bounds,
            row as int,
            states.last(),
            r,
        ));
    }
    r
}

/// Whether the error names the first thing that is wrong with the finished
/// work. The owned columns are gone through first, each on all rows: a cell
/// must be known and within the bound of its column. Then the owned
/// identities, each on all rows: the known cells must decide the identity,
/// and it must hold.
pub open spec fn first_fault(
    e: EvalError,
    fixed: &FixedData,
    identities: Seq<Identity>,
    owned: Seq<bool>,
    witnesses: Seq<bool>,
    constraints: Seq<Option<RangeConstraint>>,
    cells: Cells,
) -> bool {
    match e {
        EvalError::Stuck { row, column } => cells_good_before(
            fixed,
            witnesses,
            constraints,
            cells,
            column as int,
            row as int,
        ),
        EvalError::RangeConstraintViolated { row, column } => cells_good_before(
            fixed,
            witnesses,
            constraints,
            cells,
            column as int,
            row as int,
        ),
        EvalError::ConstraintUnsatisfiable { row, identity } => identities_good_before(
            fixed,
            identities,
            owned,
            witnesses,
            constraints,
            cells,
            identity as int,
            row as int,
        ),
        EvalError::Unresolved { row, identity } => identities_good_before(
            fixed,
            identities,
            owned,
            witnesses,
            constraints,
            cells,
            identity as int,
            row as int,
        ),
    }
}

/// Whether the cells of the owned columns before `column`, and those of
/// `column` on the rows before `row`, are known and within their bounds.
pub open spec fn cells_good_before(
    fixed: &FixedData,
    witnesses: Seq<bool>,
    constraints: Seq<Option<RangeConstraint>>,
    cells: Cells,
    column: int,
    row: int,
) -> bool {
    &&& forall|c: int, r: int|
        0 <= c < column && witnesses[c] && 0 <= r < fixed.degree ==> #[trigger] cell_in_range(
            constraints,
            cells,
            c,
            r,
        )
    &&& forall|r: int| 0 <= r < row ==> #[trigger] cell_in_range(constraints, cells, column, r)
}

/// Whether all owned cells are known and within their bounds, and the known
/// cells decide that the owned identities before `identity` hold on every
/// row, and `identity` on the rows before `row`.
pub open spec fn identities_good_before(
    fixed: &FixedData,
    identities: Seq<Identity>,
    owned: Seq<bool>,
    witnesses: Seq<bool>,
    constraints: Seq<Option<RangeConstraint>>,
    cells: Cells,
    identity: int,
    row: int,
) -> bool {
    &&& columns_known(witnesses, cells)
    &&& ranges_respected(fixed, constraints, witnesses, cells)
    &&& forall|j: int, r: int|
        0 <= j < identity && owned[j] && 0 <= r < fixed.degree ==> #[trigger] determined(
            fixed,
            cells,
            identities[j],
            r,
        ) && trace_of(fixed, cells).holds_at(identities[j], r)
    &&& forall|r: int|
        0 <= r < row ==> #[trigger] determined(fixed, cells, identities[identity], r) && trace_of(
            fixed,
            cells,
        ).holds_at(identities[identity], r)
}

/// Judges the finished work: every owned cell must be known and within the
/// bound of its column, and every owned identity must hold on every row.
/// An error names the first thing that is wrong.
pub fn certify(
    fixed: &FixedData,
    identities: &Vec<Identity>,
    owned: &Vec<bool>,
    witnesses: &Vec<bool>,
    constraints: &GlobalConstraints,
    rows: &Rows,
) -> (r: Result<(), EvalError>)
    requires
        task_wf(fixed, identities@, owned@, witnesses@, constraints.witness_constraints@),
        rows.wf(fixed),
    ensures
        r is Ok <==> certified(
            fixed,
            identities@,
            owned@,
            witnesses@,
            constraints.witness_constraints@,
            rows@,
        ),
        match r {
            Ok(()) => true,
            Err(e) => failure_meaning(
                e,
                fixed,
                identities@,
                owned@,
                witnesses@,
                constraints.witness_constraints@,
                rows@,
            ) && first_fault(
                e,
                fixed,
                identities@,
                owned@,
                witnesses@,
                constraints.witness_constraints@,
                rows@,
            ),
        },
{
    let r: Result<(), EvalError> = first_failure(
        fixed,
        identities,
        owned,
        witnesses,
        constraints,
        rows,
    );
    proof {
        match r {
            Ok(()) => {},
            Err(e) => {
                lemma_failure_not_certified(
                    e,
                    fixed,
                    identities@,
                    owned@,
                    witnesses@,
                    constraints.witness_constraints@,
                    rows@,
                );
            },
        }
    }
    r
}

/// The first thing that is wrong with the finished work, if anything is:
/// the columns are gone through first, then the identities, each on all rows.
fn first_failure(
    fixed: &FixedData,
    identities: &Vec<Identity>,
    owned: &Vec<bool>,
    witnesses: &Vec<bool>,
    constraints: &GlobalConstraints,
    rows: &Rows,
) -> (r: Result<(), EvalError>)
    requires
        task_wf(fixed, identities@, owned@, witnesses@, constraints.witness_constraints@),
        rows.wf(fixed),
    ensures
        match r {
            Ok(()) => certified(
                fixed,
                identities@,
                owned@,
                witnesses@,
                constraints.witness_constraints@,
                rows@,
            ),
            Err(e) => failure_meaning(
                e,
                fixed,
                identities@,
                owned@,
                witnesses@,
                constraints.witness_constraints@,
                rows@,
            ) && first_fault(
                e,
                fixed,
                identities@,
                owned@,
                witnesses@,
                constraints.witness_constraints@,
                rows@,
            ),
        },
{
    let width: usize = fixed.witness_cols.len();
    let height: usize = fixed.degree as usize;
    let mut column: usize = 0;
    while column < width
        invariant
            task_wf(fixed, identities@, owned@, witnesses@, constraints.witness_constraints@),
            rows.wf(fixed),
            width == fixed.witness_count(),
            height == fixed.degree,
            column <= width,
            forall|c: int, row: int|
                0 <= c < column && witnesses@[c] && 0 <= row < height ==> #[trigger] cell_in_range(
                    constraints.witness_constraints@,
                    rows@,
                    c,
                    row,
                ),
        decreases width - column,
    {
        if witnesses[column] {
            let mut row: usize = 0;
            while row < height
                invariant
                    task_wf(
                        fixed,
                        identities@,
                        owned@,
                        witnesses@,
                        constraints.witness_constraints@,
                    ),
                    rows.wf(fixed),
                    width == fixed.witness_count(),
                    height == fixed.degree,
                    column < width,
                    witnesses@[column as int],
                    row <= height,
                    forall|r2: int|
                        0 <= r2 < row ==> #[trigger] cell_in_range(
                            constraints.witness_constraints@,
                            rows@,
                            column as int,
                            r2,
                        ),
                    forall|c: int, r2: int|
                        0 <= c < column && witnesses@[c] && 0 <= r2 < height
                            ==> #[trigger] cell_in_range(
                            constraints.witness_constraints@,
                            rows@,
                            c,
                            r2,
                        ),
                decreases height - row,
            {
                match rows.get(fixed, column, row) {
                    None => {
                        return Err(EvalError::Stuck { row, column });
                    },
                    Some(value) => {
                        let allowed: bool = match &constraints.witness_constraints[column] {
                            Some(rc) => rc.check(value),
                            None => true,
                        };
                        if !allowed {
                            return Err(EvalError::RangeConstraintViolated { row, column });
                        }
                    },
                }
                row += 1;
            }
        }
        column += 1;
    }
    proof {
        assert forall|c: int| 0 <= c < witnesses@.len() && witnesses@[c] implies #[trigger] column_known(
            rows@,
            c,
        ) by {
            assert forall|r2: int| 0 <= r2 < rows@[c].len() implies (#[trigger] rows@[c][r2]) is Some by {
                assert(rows@[c].len() == fixed.degree);
                assert(cell_in_range(constraints.witness_constraints@, rows@, c, r2));
            }
        }
    }
    let mut i: usize = 0;
    while i < identities.len()
        invariant
            task_wf(fixed, identities@, owned@, witnesses@, constraints.witness_constraints@),
            rows.wf(fixed),
            height == fixed.degree,
            i <= identities@.len(),
            columns_known(witnesses@, rows@),
            ranges_respected(fixed, constraints.witness_constraints@, witnesses@, rows@),
            forall|j: int, row: int|
                0 <= j < i && owned@[j] && 0 <= row < height ==> #[trigger] trace_of(
                    fixed,
                    rows@,
                ).holds_at(identities@[j], row),
            forall|j: int, row: int|
                0 <= j < i && owned@[j] && 0 <= row < height ==> #[trigger] determined(
                    fixed,
                    rows@,
                    identities@[j],
                    row,
                ),
        decreases identities.len() - i,
    {
        if owned[i] {
            assert(identities@[i as int].wf(fixed.fixed_count(), fixed.witness_count()));
            let mut row: usize = 0;
            while row < height
                invariant
                    fixed.wf(),
                    rows.wf(fixed),
                    height == fixed.degree,
                    i < identities@.len(),
                    owned@.len() == identities@.len(),
                    owned@[i as int],
                    identities@[i as int].wf(fixed.fixed_count(), fixed.witness_count()),
                    row <= height,
                    columns_known(witnesses@, rows@),
                    ranges_respected(fixed, constraints.witness_constraints@, witnesses@, rows@),
                    forall|j: int, r2: int|
                        0 <= j < i && owned@[j] && 0 <= r2 < height ==> #[trigger] trace_of(
                            fixed,
                            rows@,
                        ).holds_at(identities@[j], r2),
                    forall|j: int, r2: int|
                        0 <= j < i && owned@[j] && 0 <= r2 < height ==> #[trigger] determined(
                            fixed,
                            rows@,
                            identities@[j],
                            r2,
                        ),
                    forall|r2: int|
                        0 <= r2 < row ==> #[trigger] trace_of(fixed, rows@).holds_at(
                            identities@[i as int],
                            r2,
                        ),
                    forall|r2: int|
                        0 <= r2 < row ==> #[trigger] determined(
                            fixed,
                            rows@,
                            identities@[i as int],
                            r2,
                        ),
                decreases height - row,
            {
                match check_identity(fixed, rows, &identities[i], row) {
                    Verdict::Holds => {},
                    Verdict::Violated => {
                        return Err(EvalError::ConstraintUnsatisfiable { row, identity: i });
                    },
                    Verdict::Unresolved => {
                        return Err(EvalError::Unresolved { row, identity: i });
                    },
                }
                row += 1;
            }
        }
        i += 1;
    }
    Ok(())
}

/// The cell of a column on a row before anything is solved: the value that
/// was supplied for it, in a column that the solver owns.
pub open spec fn initial_cell(fixed: &FixedData, witnesses: Seq<bool>, column: int, row: int) -> Option<
    u64,
> {
    if witnesses[column] {
        match fixed.witness_cols.values@[column].external_view() {
            Some(v) => Some(v[row]),
            None => None,
        }
    } else {
        None
    }
}

/// The names and values of the owned columns among the first `n`, in the
/// order of the columns.
pub open spec fn owned_values(fixed: &FixedData, witnesses: Seq<bool>, cells: Cells, n: int) -> Seq<
    (Seq<char>, Seq<u64>),
>
    decreases n,
{
    if n <= 0 {
        Seq::empty()
    } else if witnesses[n - 1] {
        owned_values(fixed, witnesses, cells, n - 1).push(
            (fixed.witness_cols.values@[n - 1].name@, crate::rows::zero_filled(cells)[n - 1]),
        )
    } else {
        owned_values(fixed, witnesses, cells, n - 1)
    }
}

/// Names and values as sequences.
pub open spec fn column_pairs(columns: Seq<(&str, Vec<u64>)>) -> Seq<(Seq<char>, Seq<u64>)> {
    Seq::new(columns.len(), |j: int| (columns[j].0@, columns[j].1@))
}

/// A solver for a part of the constraint system.
pub struct Generator<'a> {
    pub fixed: &'a FixedData<'a>,
    /// All identities of the system.
    pub identities: &'a Vec<Identity>,
    /// Which of the identities this solver must satisfy.
    pub owned_identities: Vec<bool>,
    /// Which of the witness columns this solver fills.
    pub witnesses: Vec<bool>,
    pub global_range_constraints: &'a GlobalConstraints,
    /// The cells found so far.
    pub rows: Rows,
}

impl<'a> Generator<'a> {
    pub open spec fn wf(&self) -> bool {
        &&& task_wf(
            self.fixed,
            self.identities@,
            self.owned_identities@,
            self.witnesses@,
            self.global_range_constraints.witness_constraints@,
        )
        &&& self.rows.wf(self.fixed)
    }

    /// The two solvers have the same task.
    pub open spec fn same_task(&self, other: &Generator<'a>) -> bool {
        &&& self.fixed == other.fixed
        &&& self.identities == other.identities
        &&& self.owned_identities@ == other.owned_identities@
        &&& self.witnesses@ == other.witnesses@
        &&& self.global_range_constraints == other.global_range_constraints
    }

    /// The solver has found a solution of its part: its columns are known and
    /// within their bounds, and its identities hold.
    pub open spec fn solved(&self) -> bool {
        &&& columns_known(self.witnesses@, self.rows@)
        &&& ranges_respected(
            self.fixed,
            self.global_range_constraints.witness_constraints@,
            self.witnesses@,
            self.rows@,
        )
        &&& identities_hold(self.fixed, self.identities@, self.owned_identities@, self.rows@)
    }

    /// The solver's work is finished and found good.
    pub open spec fn certified(&self) -> bool {
        certified(
            self.fixed,
            self.identities@,
            self.owned_identities@,
            self.witnesses@,
            self.global_range_constraints.witness_constraints@,
            self.rows@,
        )
    }

    /// What an error says of the solver that failed with it.
    pub open spec fn failed_with(&self, e: EvalError) -> bool {
        failure_meaning(
            e,
            self.fixed,
            self.identities@,
            self.owned_identities@,
            self.witnesses@,
            self.global_range_constraints.witness_constraints@,
            self.rows@,
        )
    }

    /// Every cell of a column that the solver does not own is open.
    pub open spec fn others_open(&self) -> bool {
        forall|c: int, row: int|
            0 <= c < self.witnesses@.len() && !self.witnesses@[c] && 0 <= row < self.fixed.degree
                ==> (#[trigger] self.rows@[c][row]) is None
    }

    /// A solver that knows the supplied values of its columns and nothing else.
    pub fn new(
        fixed: &'a FixedData<'a>,
        identities: &'a Vec<Identity>,
        owned_identities: Vec<bool>,
        witnesses: Vec<bool>,
        global_range_constraints: &'a GlobalConstraints,
    ) -> (r: Generator<'a>)
        requires
            task_wf(
                fixed,
                identities@,
                owned_identities@,
                witnesses@,
                global_range_constraints.witness_constraints@,
            ),
        ensures
            r.wf(),
            r.fixed == fixed,
            r.identities == identities,
            r.owned_identities == owned_identities,
            r.witnesses == witnesses,
            r.global_range_constraints == global_range_constraints,
            forall|c: int, row: int|
                0 <= c < fixed.witness_count() && 0 <= row < fixed.degree ==> (
                #[trigger] r.rows@[c][row]) == initial_cell(fixed, witnesses@, c, row),
    {
        let mut rows: Rows = Rows::new(fixed);
        let width: usize = fixed.witness_cols.len();
        let height: usize = fixed.degree as usize;
        let mut column: usize = 0;
        while column < width
            invariant
                fixed.wf(),
                rows.wf(fixed),
                witnesses@.len() == fixed.witness_count(),
                width == fixed.witness_count(),
                height == fixed.degree,
                column <= width,
                forall|c: int, row: int|
                    0 <= c < column && 0 <= row < height ==> (#[trigger] rows@[c][row])
                        == initial_cell(fixed, witnesses@, c, row),
                forall|c: int, row: int|
                    column <= c < width && 0 <= row < height ==> (#[trigger] rows@[c][row]) is None,
            decreases width - column,
        {
            if witnesses[column] {
                let mut row: usize = 0;
                while row < height
                    invariant
                        fixed.wf(),
                        rows.wf(fixed),
                        witnesses@.len() == fixed.witness_count(),
                        width == fixed.witness_count(),
                        height == fixed.degree,
                        column < width,
                        witnesses@[column as int],
                        row <= height,
                        forall|c: int, r2: int|
                            0 <= c < column && 0 <= r2 < height ==> (#[trigger] rows@[c][r2])
                                == initial_cell(fixed, witnesses@, c, r2),
                        forall|r2: int|
                            0 <= r2 < row ==> (#[trigger] rows@[column as int][r2]) == initial_cell(
                                fixed,
                                witnesses@,
                                column as int,
                                r2,
                            ),
                        forall|r2: int|
                            row <= r2 < height ==> (#[trigger] rows@[column as int][r2]) is None,
                        forall|c: int, r2: int|
                            column < c < width && 0 <= r2 < height ==> (#[trigger] rows@[c][r2]) is None,
                    decreases height - row,
                {
                    let id = PolyID { id: column as u64, ptype: PolynomialType::Committed };
                    match fixed.external_witness(row as u64, &id) {
                        Some(value) => {
                            proof {
                                let v = fixed.witness_cols.values@[column as int].external_view()->0;
                                assert(v.len() == fixed.degree);
                                assert(crate::setup::in_field(v, fixed.field.modulus));
                                vstd::arithmetic::div_mod::lemma_small_mod(
                                    row as nat,
                                    fixed.degree as nat,
                                );
                            }
                            rows.set(fixed, column, row, value);
                        },
                        None => {},
                    }
                    row += 1;
                }
            }
            column += 1;
        }
        Generator { fixed, identities, owned_identities, witnesses, global_range_constraints, rows }
    }

    /// Whether no cell of the solver is one to ask for: every owned column
    /// that has a query is known on every row.
    pub open spec fn quiet(&self) -> bool {
        forall|c: int, row: int|
            0 <= row < self.fixed.degree ==> !#[trigger] can_ask(
                self.fixed,
                self.witnesses@,
                self.rows@,
                c,
                row,
            )
    }

    /// Whether the trace solves the solver's part: it gives the known cells
    /// their values, keeps the owned columns below their limits and satisfies
    /// the owned identities on every row.
    pub open spec fn solution(&self, t: Trace) -> bool {
        &&& completes(t, self.fixed, self.rows@)
        &&& keeps(
            t,
            limits_of(self.witnesses@, self.global_range_constraints.witness_constraints@),
        )
        &&& forall|i: int, row: int|
            0 <= i < self.identities@.len() && self.owned_identities@[i] && 0 <= row
                < self.fixed.degree ==> #[trigger] t.holds_at(self.identities@[i], row)
    }

    /// Whether the solver is stuck at the cell: the rows before are filled,
    /// the row is closed, and the cell is the first open one of the row.
    pub open spec fn stuck_at(&self, row: int, column: int) -> bool {
        &&& row_closed(
            self.fixed,
            self.identities@,
            self.owned_identities@,
            self.witnesses@,
            self.global_range_constraints.witness_constraints@,
            self.rows@,
            row,
        )
        &&& forall|c: int|
            0 <= c < column && self.witnesses@[c] ==> (#[trigger] self.rows@[c])[row] is Some
        &&& forall|c: int, r: int|
            0 <= c < self.witnesses@.len() && self.witnesses@[c] && 0 <= r < row ==> (
            #[trigger] self.rows@[c][r]) is Some
    }

    /// Whether the solver knows every cell of its columns on the rows before `row`.
    pub open spec fn filled_before(&self, row: int) -> bool {
        forall|c: int, r: int|
            0 <= c < self.witnesses@.len() && self.witnesses@[c] && 0 <= r < row ==> (
            #[trigger] self.rows@[c][r]) is Some
    }

    /// What an error says beyond `failed_with`: the solver has filled the
    /// rows before the one that the error names, and a cell is reported as
    /// stuck only where the solver is stuck at it.
    pub open spec fn stopped_by(&self, e: EvalError) -> bool {
        &&& self.filled_before(error_row(e) as int)
        &&& match e {
            EvalError::Stuck { row, column } => self.stuck_at(row as int, column as int),
            _ => true,
        }
    }

    /// Whether the solver has come from the cells `start` to the cells that
    /// it knows, with the result: it has solved the rows in increasing
    /// order, and either the work on a row has failed with the error, or all
    /// rows are done and the result is the judgement of the finished work.
    pub open spec fn ran_from(&self, start: Cells, r: Result<(), EvalError>) -> bool {
        exists|marks: Seq<Cells>| #[trigger]
            rows_run(
                self.fixed,
                self.identities@,
                self.owned_identities@,
                self.witnesses@,
                self.global_range_constraints.witness_constraints@,
                start,
                marks,
            ) && {
                ||| {
                    &&& marks.len() == self.fixed.degree + 1
                    &&& marks.last() == self.rows@
                    &&& match r {
                        Ok(()) => self.certified(),
                        Err(e) => self.failed_with(e) && first_fault(
                            e,
                            self.fixed,
                            self.identities@,
                            self.owned_identities@,
                            self.witnesses@,
                            self.global_range_constraints.witness_constraints@,
                            self.rows@,
                        ),
                    }
                }
                ||| {
                    &&& marks.len() <= self.fixed.degree
                    &&& r is Err
                    &&& row_done(
                        self.fixed,
                        self.identities@,
                        self.owned_identities@,
                        self.witnesses@,
                        self.global_range_constraints.witness_constraints@,
                        marks.len() - 1,
                        marks.last(),
                        self.rows@,
                        r,
                    )
                }
            }
    }

    /// Solves the rows in increasing order, then judges the finished work.
    ///
    /// How the solver comes to what it knows and to the result, `ran_from`
    /// says. A cell is reported as stuck only where the solver is stuck at it.
    /// Where no cell is one to ask for, all that became known follows from
    /// the identities: every solution of the solver's part has these values.
    pub fn run_rows<Q: QueryCallback>(
        &mut self,
        fixed_lookup: &mut FixedLookup,
        query_callback: &mut Q,
    ) -> (r: Result<(), EvalError>)
        requires
            old(self).wf(),
        ensures
            final(self).wf(),
            final(self).same_task(old(self)),
            extends(final(self).rows@, old(self).rows@),
            others_unchanged(old(self).witnesses@, final(self).rows@, old(self).rows@),
            r is Ok <==> final(self).certified(),
            match r {
                Ok(()) => final(self).solved(),
                Err(e) => final(self).failed_with(e) && final(self).stopped_by(e),
            },
            old(self).quiet() ==> forall|t: Trace| #[trigger]
                old(self).solution(t) ==> completes(t, final(self).fixed, final(self).rows@),
            final(self).ran_from(old(self).rows@, r),
    {
        let height: usize = self.fixed.degree as usize;
        let mut row: usize = 0;
        let ghost mut marks: Seq<Cells> = seq![self.rows@];
        while row < height
            invariant
                rows_run(
                    self.fixed,
                    self.identities@,
                    self.owned_identities@,
                    self.witnesses@,
                    self.global_range_constraints.witness_constraints@,
                    old(self).rows@,
                    marks,
                ),
                marks.len() == row + 1,
                marks.last() == self.rows@,
                self.wf(),
                self.same_task(old(self)),
                height == self.fixed.degree,
                row <= height,
                extends(self.rows@, old(self).rows@),
                others_unchanged(old(self).witnesses@, self.rows@, old(self).rows@),
                forall|c: int, r: int|
                    0 <= c < self.witnesses@.len() && self.witnesses@[c] && 0 <= r < row
                        ==> #[trigger] cell_in_range(
                        self.global_range_constraints.witness_constraints@,
                        self.rows@,
                        c,
                        r,
                    ),
                old(self).quiet() ==> forall|t: Trace| #[trigger]
                    old(self).solution(t) ==> completes(t, self.fixed, self.rows@),
            decreases height - row,
        {
            let ghost before = self.rows@;
            proof {
                if old(self).quiet() {
                    assert forall|c: int| !#[trigger] can_ask(
                        self.fixed,
                        self.witnesses@,
                        before,
                        c,
                        row as int,
                    ) by {
                        if can_ask(self.fixed, self.witnesses@, before, c, row as int) {
                            assert(before[c].len() == old(self).rows@[c].len());
                            assert(old(self).rows@[c].len() == self.fixed.degree);
                            assert(can_ask(
                                self.fixed,
                                self.witnesses@,
                                old(self).rows@,
                                c,
                                row as int,
                            ));
                        }
                    }
                }
            }
            match process_row(
                self.fixed,
                self.identities,
                &self.owned_identities,
                &self.witnesses,
                self.global_range_constraints,
                &mut self.rows,
                fixed_lookup,
                query_callback,
                row,
            ) {
                Ok(()) => {},
                Err(e) => {
                    proof {
                        crate::rows::lemma_extends_transitive(old(self).rows@, before, self.rows@);
                        self.lemma_row_followed(old(self), before, row as int);
                        assert forall|c: int, r: int|
                            0 <= c < self.witnesses@.len() && self.witnesses@[c] && 0 <= r
                                < row implies (#[trigger] self.rows@[c][r]) is Some by {
                            assert(cell_in_range(
                                self.global_range_constraints.witness_constraints@,
                                before,
                                c,
                                r,
                            ));
                            assert(before[c].len() == self.fixed.degree);
                        }
                        lemma_failure_not_certified(
                            e,
                            self.fixed,
                            self.identities@,
                            self.owned_identities@,
                            self.witnesses@,
                            self.global_range_constraints.witness_constraints@,
                            self.rows@,
                        );
                        assert(self.ran_from(old(self).rows@, Err(e)));
                    }
                    return Err(e);
                },
            }
            proof {
                let earlier = marks;
                marks = earlier.push(self.rows@);
                assert forall|r: int| 0 <= r < marks.len() - 1 implies row_done(
                    self.fixed,
                    self.identities@,
                    self.owned_identities@,
                    self.witnesses@,
                    self.global_range_constraints.witness_constraints@,
                    r,
                    #[trigger] marks[r],
                    marks[r + 1],
                    Ok(()),
                ) by {
                    if r < earlier.len() - 1 {
                        assert(marks[r] == earlier[r]);
                        assert(marks[r + 1] == earlier[r + 1]);
                    } else {
                        assert(marks[r] == before);
                        assert(marks[r + 1] == self.rows@);
                    }
                }
                crate::rows::lemma_extends_transitive(old(self).rows@, before, self.rows@);
                self.lemma_row_followed(old(self), before, row as int);
                assert forall|c: int, r: int|
                    0 <= c < self.witnesses@.len() && self.witnesses@[c] && 0 <= r < row
                        + 1 implies #[trigger] cell_in_range(
                    self.global_range_constraints.witness_constraints@,
                    self.rows@,
                    c,
                    r,
                ) by {
                    if r < row {
                        assert(cell_in_range(
                            self.global_range_constraints.witness_constraints@,
                            before,
                            c,
                            r,
                        ));
                        assert(before[c].len() == self.fixed.degree);
                        assert(self.rows@[c][r] == before[c][r]);
                    }
                }
            }
            row += 1;
        }
        let r: Result<(), EvalError> = certify(
            self.fixed,
            self.identities,
            &self.owned_identities,
            &self.witnesses,
            self.global_range_constraints,
            &self.rows,
        );
        proof {
            match r {
                Err(EvalError::Stuck { row, column }) => {
                    assert(cell_in_range(
                        self.global_range_constraints.witness_constraints@,
                        self.rows@,
                        column as int,
                        row as int,
                    ));
                },
                _ => {},
            }
            assert forall|c: int, r: int|
                0 <= c < self.witnesses@.len() && self.witnesses@[c] && 0 <= r
                    < height implies (#[trigger] self.rows@[c][r]) is Some by {
                assert(cell_in_range(
                    self.global_range_constraints.witness_constraints@,
                    self.rows@,
                    c,
                    r,
                ));
            }
            assert(self.ran_from(old(self).rows@, r));
        }
        r
    }

    /// Where what became known on a row follows from what was known before
    /// the row, and that from what was known at the start, every solution of
    /// the solver's part as it was at the start has the new values.
    proof fn lemma_row_followed(&self, start: &Generator<'a>, before: Cells, row: int)
        requires
            self.wf(),
            self.same_task(start),
            0 <= row < self.fixed.degree,
            start.quiet() ==> forall|t: Trace| #[trigger]
                start.solution(t) ==> completes(t, self.fixed, before),
            quiet_row(self.fixed, self.witnesses@, before, row) ==> follows_on_row(
                self.fixed,
                self.identities@,
                self.owned_identities@,
                self.witnesses@,
                self.global_range_constraints.witness_constraints@,
                self.rows@,
                before,
                row,
            ),
            start.quiet() ==> quiet_row(self.fixed, self.witnesses@, before, row),
        ensures
            start.quiet() ==> forall|t: Trace| #[trigger]
                start.solution(t) ==> completes(t, self.fixed, self.rows@),
    {
        if start.quiet() {
            assert forall|t: Trace| #[trigger] start.solution(t) implies completes(
                t,
                self.fixed,
                self.rows@,
            ) by {
                assert(completes(t, self.fixed, before));
                assert forall|i: int|
                    0 <= i < self.identities@.len() && self.owned_identities@[i] implies t.holds_at(
                    #[trigger] self.identities@[i],
                    row,
                ) by {}
                assert(solves_row(
                    t,
                    self.fixed,
                    self.identities@,
                    self.owned_identities@,
                    self.witnesses@,
                    self.global_range_constraints.witness_constraints@,
                    before,
                    row,
                ));
            }
        }
    }

    /// The names and values of the columns that the solver has filled, in
    /// the order of the columns.
    pub fn take_witness_col_values(&self) -> (r: Vec<(&'a str, Vec<u64>)>)
        requires
            self.wf(),
            columns_known(self.witnesses@, self.rows@),
        ensures
            column_pairs(r@) == owned_values(
                self.fixed,
                self.witnesses@,
                self.rows@,
                self.witnesses@.len() as int,
            ),
    {
        let fixed: &'a FixedData<'a> = self.fixed;
        let width: usize = fixed.witness_cols.len();
        let height: usize = fixed.degree as usize;
        let mut columns: Vec<(&'a str, Vec<u64>)> = Vec::new();
        let mut column: usize = 0;
        while column < width
            invariant
                self.wf(),
                fixed == self.fixed,
                columns_known(self.witnesses@, self.rows@),
                width == fixed.witness_count(),
                height == fixed.degree,
                column <= width,
                column_pairs(columns@) == owned_values(
                    fixed,
                    self.witnesses@,
                    self.rows@,
                    column as int,
                ),
            decreases width - column,
        {
            if self.witnesses[column] {
                let mut values: Vec<u64> = Vec::new();
                let mut row: usize = 0;
                while row < height
                    invariant
                        self.wf(),
                        fixed == self.fixed,
                        column_known(self.rows@, column as int),
                        width == fixed.witness_count(),
                        height == fixed.degree,
                        column < width,
                        row <= height,
                        values@.len() == row,
                        forall|r2: int|
                            0 <= r2 < row ==> #[trigger] values@[r2] == crate::rows::zero_filled(
                                self.rows@,
                            )[column as int][r2],
                    decreases height - row,
                {
                    assert(self.rows@[column as int].len() == fixed.degree);
                    match self.rows.get(fixed, column, row) {
                        Some(value) => {
                            values.push(value);
                        },
                        None => {
                            assert(false);
                        },
                    }
                    row += 1;
                }
                let name: &'a str = fixed.witness_cols.values[column].name.as_str();
                let ghost before = column_pairs(columns@);
                columns.push((name, values));
                proof {
                    assert(self.rows@[column as int].len() == fixed.degree);
                    assert(values@ =~= crate::rows::zero_filled(self.rows@)[column as int]);
                    assert(column_pairs(columns@) =~= before.push(
                        (
                            fixed.witness_cols.values@[column as int].name@,
                            crate::rows::zero_filled(self.rows@)[column as int],
                        ),
                    ));
                }
            }
            column += 1;
        }
        columns
    }

    /// No column is owned by both solvers.
    pub open spec fn apart(&self, other: &Generator<'a>) -> bool {
        forall|c: int|
            0 <= c < self.witnesses@.len() && #[trigger] self.witnesses@[c] ==> !other.witnesses@[c]
    }

    /// The solver knows the other solver's columns as the other one has them.
    pub open spec fn imported(&self, other: &Generator<'a>) -> bool {
        forall|c: int|
            0 <= c < other.witnesses@.len() && other.witnesses@[c] ==> #[trigger] self.rows@[c]
                == other.rows@[c]
    }

    /// The solver works on the same system as the other one.
    pub open spec fn same_system(&self, other: &Generator<'a>) -> bool {
        &&& self.fixed == other.fixed
        &&& self.identities == other.identities
        &&& self.global_range_constraints == other.global_range_constraints
    }

    /// Takes over the columns that a machine has filled.
    pub fn import(&mut self, machine: &Generator<'a>)
        requires
            old(self).wf(),
            machine.wf(),
            machine.same_system(old(self)),
            forall|c: int, row: int|
                0 <= c < machine.witnesses@.len() && machine.witnesses@[c] && 0 <= row
                    < machine.fixed.degree ==> (#[trigger] old(self).rows@[c][row]) is None,
        ensures
            final(self).wf(),
            final(self).same_task(old(self)),
            extends(final(self).rows@, old(self).rows@),
            final(self).imported(machine),
            others_unchanged(machine.witnesses@, old(self).rows@, final(self).rows@),
    {
        let width: usize = self.fixed.witness_cols.len();
        let mut column: usize = 0;
        while column < width
            invariant
                self.wf(),
                machine.wf(),
                machine.same_system(old(self)),
                self.same_task(old(self)),
                width == self.fixed.witness_count(),
                column <= width,
                extends(self.rows@, old(self).rows@),
                forall|c: int|
                    0 <= c < column && machine.witnesses@[c] ==> #[trigger] self.rows@[c]
                        == machine.rows@[c],
                forall|c: int|
                    0 <= c < width && (c >= column || !machine.witnesses@[c])
                        ==> #[trigger] self.rows@[c] == old(self).rows@[c],
                forall|c: int, row: int|
                    0 <= c < machine.witnesses@.len() && machine.witnesses@[c] && 0 <= row
                        < machine.fixed.degree ==> (#[trigger] old(self).rows@[c][row]) is None,
            decreases width - column,
        {
            if machine.witnesses[column] {
                let ghost before = self.rows@;
                proof {
                    assert(self.rows@[column as int] == old(self).rows@[column as int]);
                    assert forall|row: int| 0 <= row < self.fixed.degree implies (
                    #[trigger] self.rows@[column as int][row]) is None by {
                        assert(old(self).rows@[column as int][row] is None);
                    }
                }
                self.rows.copy_column(self.fixed, &machine.rows, column);
                proof {
                    crate::rows::lemma_extends_transitive(old(self).rows@, before, self.rows@);
                }
            }
            column += 1;
        }
    }

    /// Whether the machines can work beside this solver: they are solvers
    /// for parts of the same system, and no column has two owners.
    pub open spec fn machines_fit(&self, machines: Seq<Machine<'a>>) -> bool {
        &&& forall|k: int|
            0 <= k < machines.len() ==> {
                &&& (#[trigger] machines[k]).generator().wf()
                &&& machines[k].generator().same_system(self)
                &&& machines[k].generator().apart(self)
            }
        &&& forall|j: int, k: int|
            0 <= j < k < machines.len() ==> (#[trigger] machines[j]).generator().apart(
                &(#[trigger] machines[k]).generator(),
            )
    }

    /// The machines are the same solvers as before, and know at least what they knew.
    pub open spec fn machines_follow(new: Seq<Machine<'a>>, old: Seq<Machine<'a>>) -> bool {
        &&& new.len() == old.len()
        &&& forall|k: int|
            0 <= k < old.len() ==> {
                &&& (#[trigger] new[k]).generator().wf()
                &&& new[k].generator().same_task(&old[k].generator())
                &&& extends(new[k].generator().rows@, old[k].generator().rows@)
                &&& others_unchanged(
                    old[k].generator().witnesses@,
                    new[k].generator().rows@,
                    old[k].generator().rows@,
                )
            }
    }

    /// Every machine has solved its part, and this solver knows the machines' columns.
    pub open spec fn machines_done(&self, machines: Seq<Machine<'a>>) -> bool {
        forall|k: int|
            0 <= k < machines.len() ==> {
                &&& (#[trigger] machines[k]).generator().solved()
                &&& self.imported(&machines[k].generator())
            }
    }

    /// Whether neither this solver nor a machine has a cell to ask for.
    pub open spec fn all_quiet(&self, machines: Seq<Machine<'a>>) -> bool {
        &&& self.quiet()
        &&& forall|k: int| 0 <= k < machines.len() ==> (#[trigger] machines[k]).generator().quiet()
    }

    /// Whether the trace solves this solver's part and every machine's part.
    pub open spec fn system_solution(&self, machines: Seq<Machine<'a>>, t: Trace) -> bool {
        &&& self.solution(t)
        &&& forall|k: int|
            0 <= k < machines.len() ==> (#[trigger] machines[k]).generator().solution(t)
    }

    /// Whether the trace has the values that this solver and the machines know.
    pub open spec fn system_completes(&self, machines: Seq<Machine<'a>>, t: Trace) -> bool {
        &&& completes(t, self.fixed, self.rows@)
        &&& forall|k: int|
            0 <= k < machines.len() ==> completes(
                t,
                self.fixed,
                (#[trigger] machines[k]).generator().rows@,
            )
    }

    /// Whether the error was raised by this solver, after every machine had
    /// solved its part, or by one of the machines.
    pub open spec fn raised(&self, machines: Seq<Machine<'a>>, e: EvalError) -> bool {
        ||| {
            &&& self.failed_with(e)
            &&& self.stopped_by(e)
            &&& self.machines_done(machines)
        }
        ||| exists|k: int|
            0 <= k < machines.len() && (#[trigger] machines[k]).generator().failed_with(e)
                && machines[k].generator().stopped_by(e)
    }

    /// Whether the cells are those of `before` with the columns of the
    /// machines as the machines know them.
    pub open spec fn taken_over(mid: Cells, before: Cells, machines: Seq<Machine<'a>>) -> bool {
        &&& mid.len() == before.len()
        &&& forall|k: int, c: int|
            0 <= k < machines.len() && 0 <= c < before.len() && (
            #[trigger] machines[k]).generator().witnesses@[c] ==> #[trigger] mid[c]
                == machines[k].generator().rows@[c]
        &&& forall|c: int|
            0 <= c < before.len() && (forall|k: int|
                0 <= k < machines.len() ==> !(#[trigger] machines[k]).generator().witnesses@[c])
                ==> #[trigger] mid[c] == before[c]
    }

    /// Whether the solver and the machines have come from what they were to
    /// what they are, with the result. The machines run in their order, each
    /// from the cells that it had. The first that fails ends the work with
    /// its error: the machines after it and this solver are left as they
    /// were. Where all succeed, this solver takes over their columns and
    /// runs from there, and the result is its own.
    pub open spec fn system_ran(
        &self,
        before: &Generator<'a>,
        machines: Seq<Machine<'a>>,
        machines_before: Seq<Machine<'a>>,
        r: Result<(), EvalError>,
    ) -> bool {
        ||| exists|k: int|
            {
                &&& 0 <= k < machines.len()
                &&& r is Err
                &&& (#[trigger] machines[k]).generator().ran_from(
                    machines_before[k].generator().rows@,
                    r,
                )
                &&& forall|j: int|
                    0 <= j < k ==> (#[trigger] machines[j]).generator().ran_from(
                        machines_before[j].generator().rows@,
                        Ok(()),
                    )
                &&& forall|j: int|
                    k < j < machines.len() ==> #[trigger] machines[j] == machines_before[j]
                &&& self.rows@ == before.rows@
            }
        ||| {
            &&& forall|j: int|
                0 <= j < machines.len() ==> (#[trigger] machines[j]).generator().ran_from(
                    machines_before[j].generator().rows@,
                    Ok(()),
                )
            &&& exists|mid: Cells| #[trigger]
                Self::taken_over(mid, before.rows@, machines) && self.ran_from(mid, r)
        }
    }

    /// Generates the witness: lets every machine fill its columns, takes
    /// these over, and solves what is left.
    ///
    /// How the solver and the machines come to what they know, `system_ran`
    /// says.
    ///
    /// A cell is reported as stuck only where the solver that reports it is
    /// stuck at it. Where no solver has a cell to ask for, all that became
    /// known follows from the identities: every trace that solves all the
    /// parts has the values that the solvers know afterwards.
    pub fn run<Q: QueryCallback>(&mut self, mutable_state: &mut MutableState<'a, Q>) -> (r: Result<
        (),
        EvalError,
    >)
        requires
            old(self).wf(),
            old(self).others_open(),
            old(self).machines_fit(old(mutable_state).machines@),
        ensures
            final(self).wf(),
            final(self).same_task(old(self)),
            extends(final(self).rows@, old(self).rows@),
            Self::machines_follow(final(mutable_state).machines@, old(mutable_state).machines@),
            r is Ok <==> final(self).certified() && forall|k: int|
                0 <= k < final(mutable_state).machines@.len() ==> (
                #[trigger] final(mutable_state).machines@[k]).generator().certified(),
            match r {
                Ok(()) => final(self).solved() && final(self).machines_done(
                    final(mutable_state).machines@,
                ),
                Err(e) => final(self).raised(final(mutable_state).machines@, e),
            },
            old(self).all_quiet(old(mutable_state).machines@) ==> forall|t: Trace| #[trigger]
                old(self).system_solution(old(mutable_state).machines@, t)
                    ==> final(self).system_completes(final(mutable_state).machines@, t),
            final(self).system_ran(
                old(self),
                final(mutable_state).machines@,
                old(mutable_state).machines@,
                r,
            ),
    {
        let count: usize = mutable_state.machines.len();
        let mut k: usize = 0;
        while k < count
            invariant
                *self == *old(self),
                self.wf(),
                old(self).machines_fit(old(mutable_state).machines@),
                forall|j: int|
                    k <= j < count ==> #[trigger] mutable_state.machines@[j]
                        == old(mutable_state).machines@[j],
                old(self).all_quiet(old(mutable_state).machines@) ==> forall|t: Trace| #[trigger]
                    old(self).system_solution(old(mutable_state).machines@, t)
                        ==> self.system_completes(mutable_state.machines@, t),
                count == old(mutable_state).machines@.len(),
                k <= count,
                Self::machines_follow(mutable_state.machines@, old(mutable_state).machines@),
                forall|j: int|
                    0 <= j < k ==> (#[trigger] mutable_state.machines@[j]).generator().solved(),
                forall|j: int|
                    0 <= j < k ==> (#[trigger] mutable_state.machines@[j]).generator().certified(),
                forall|j: int|
                    0 <= j < k ==> (#[trigger] mutable_state.machines@[j]).generator().ran_from(
                        old(mutable_state).machines@[j].generator().rows@,
                        Ok(()),
                    ),
            decreases count - k,
        {
            let ghost before = mutable_state.machines@;
            let result: Result<(), EvalError> = mutable_state.machines[k].run(
                &mut mutable_state.fixed_lookup,
                &mut mutable_state.query_callback,
            );
            proof {
                assert forall|j: int| 0 <= j < count implies {
                    &&& (#[trigger] mutable_state.machines@[j]).generator().wf()
                    &&& mutable_state.machines@[j].generator().same_task(
                        &old(mutable_state).machines@[j].generator(),
                    )
                    &&& extends(
                        mutable_state.machines@[j].generator().rows@,
                        old(mutable_state).machines@[j].generator().rows@,
                    )
                    &&& others_unchanged(
                        old(mutable_state).machines@[j].generator().witnesses@,
                        mutable_state.machines@[j].generator().rows@,
                        old(mutable_state).machines@[j].generator().rows@,
                    )
                } by {
                    if j == k {
                        assert(before[j].generator().same_task(
                            &old(mutable_state).machines@[j].generator(),
                        ));
                        crate::rows::lemma_extends_transitive(
                            old(mutable_state).machines@[j].generator().rows@,
                            before[j].generator().rows@,
                            mutable_state.machines@[j].generator().rows@,
                        );
                    } else {
                        assert(mutable_state.machines@[j] == before[j]);
                    }
                }
                assert forall|j: int| 0 <= j < k implies (
                #[trigger] mutable_state.machines@[j]).generator().solved() by {
                    assert(mutable_state.machines@[j] == before[j]);
                }
                assert forall|j: int| 0 <= j < k implies (
                #[trigger] mutable_state.machines@[j]).generator().certified() by {
                    assert(mutable_state.machines@[j] == before[j]);
                }
                assert forall|j: int| k < j < count implies #[trigger] mutable_state.machines@[j]
                    == old(mutable_state).machines@[j] by {
                    assert(mutable_state.machines@[j] == before[j]);
                }
                if old(self).all_quiet(old(mutable_state).machines@) {
                    assert forall|t: Trace| #[trigger]
                        old(self).system_solution(
                            old(mutable_state).machines@,
                            t,
                        ) implies self.system_completes(mutable_state.machines@, t) by {
                        assert(self.system_completes(before, t));
                        assert(before[k as int] == old(mutable_state).machines@[k as int]);
                        assert(before[k as int].generator().quiet());
                        assert(before[k as int].generator().solution(t));
                        assert(before[k as int].generator().same_system(old(self)));
                        assert forall|j: int| 0 <= j < count implies completes(
                            t,
                            self.fixed,
                            (#[trigger] mutable_state.machines@[j]).generator().rows@,
                        ) by {
                            if j != k {
                                assert(mutable_state.machines@[j] == before[j]);
                            }
                        }
                    }
                }
            }
            proof {
                assert(before[k as int] == old(mutable_state).machines@[k as int]);
                assert forall|j: int| 0 <= j < k implies (
                #[trigger] mutable_state.machines@[j]).generator().ran_from(
                    old(mutable_state).machines@[j].generator().rows@,
                    Ok(()),
                ) by {
                    assert(mutable_state.machines@[j] == before[j]);
                }
            }
            match result {
                Ok(()) => {},
                Err(e) => {
                    assert(mutable_state.machines@[k as int].generator().failed_with(e));
                    assert(mutable_state.machines@[k as int].generator().stopped_by(e));
                    assert(!mutable_state.machines@[k as int].generator().certified());
                    assert(mutable_state.machines@[k as int].generator().ran_from(
                        old(mutable_state).machines@[k as int].generator().rows@,
                        Err(e),
                    ));
                    return Err(e);
                },
            }
            k += 1;
        }
        let ghost filled = mutable_state.machines@;
        let mut k: usize = 0;
        while k < count
            invariant
                self.wf(),
                self.same_task(old(self)),
                old(self).others_open(),
                old(self).machines_fit(old(mutable_state).machines@),
                extends(self.rows@, old(self).rows@),
                count == mutable_state.machines@.len(),
                k <= count,
                Self::machines_follow(mutable_state.machines@, old(mutable_state).machines@),
                forall|j: int|
                    0 <= j < count ==> (#[trigger] mutable_state.machines@[j]).generator().solved(),
                forall|j: int|
                    0 <= j < count ==> (
                    #[trigger] mutable_state.machines@[j]).generator().certified(),
                forall|j: int|
                    0 <= j < k ==> self.imported(
                        &(#[trigger] mutable_state.machines@[j]).generator(),
                    ),
                forall|c: int|
                    0 <= c < self.witnesses@.len() && (forall|j: int|
                        0 <= j < k ==> !(#[trigger] mutable_state.machines@[j]).generator().witnesses@[c])
                        ==> #[trigger] self.rows@[c] == old(self).rows@[c],
                mutable_state.machines@ == filled,
                old(self).all_quiet(old(mutable_state).machines@) ==> forall|t: Trace| #[trigger]
                    old(self).system_solution(old(mutable_state).machines@, t)
                        ==> self.system_completes(mutable_state.machines@, t),
            decreases count - k,
        {
            let ghost before = self.rows@;
            let ghost m = mutable_state.machines@[k as int].generator();
            let ghost m_old = old(mutable_state).machines@[k as int].generator();
            proof {
                assert(m.same_task(&m_old));
                assert(m_old.apart(old(self)));
                assert forall|c: int, row: int|
                    0 <= c < m.witnesses@.len() && m.witnesses@[c] && 0 <= row
                        < m.fixed.degree implies (#[trigger] self.rows@[c][row]) is None by {
                    assert forall|j: int| 0 <= j < k implies !(
                    #[trigger] mutable_state.machines@[j]).generator().witnesses@[c] by {
                        let mj = mutable_state.machines@[j].generator();
                        let mj_old = old(mutable_state).machines@[j].generator();
                        assert(mj.same_task(&mj_old));
                        assert(mj_old.apart(&m_old));
                        if mj.witnesses@[c] {
                            assert(mj_old.witnesses@[c]);
                        }
                    }
                    assert(self.rows@[c] == old(self).rows@[c]);
                    assert(m_old.witnesses@[c]);
                    assert(!old(self).witnesses@[c]);
                    assert(old(self).rows@[c][row] is None);
                }
            }
            match &mutable_state.machines[k] {
                Machine::Vm(g) => {
                    self.import(g);
                },
            }
            proof {
                crate::rows::lemma_extends_transitive(old(self).rows@, before, self.rows@);
                assert forall|j: int| 0 <= j < k + 1 implies self.imported(
                    &(#[trigger] mutable_state.machines@[j]).generator(),
                ) by {
                    if j < k {
                        let mj = mutable_state.machines@[j].generator();
                        let mj_old = old(mutable_state).machines@[j].generator();
                        assert(mj.same_task(&mj_old));
                        assert(mj_old.apart(&m_old));
                        assert forall|c: int|
                            0 <= c < mj.witnesses@.len() && mj.witnesses@[c] implies #[trigger] self.rows@[c]
                            == mj.rows@[c] by {
                            assert(mj_old.witnesses@[c]);
                            assert(!m.witnesses@[c]);
                            assert(before[c] == self.rows@[c]);
                        }
                    }
                }
                assert forall|c: int|
                    0 <= c < self.witnesses@.len() && (forall|j: int|
                        0 <= j < k + 1 ==> !(
                        #[trigger] mutable_state.machines@[j]).generator().witnesses@[c]) implies #[trigger] self.rows@[c]
                    == old(self).rows@[c] by {
                    assert(!mutable_state.machines@[k as int].generator().witnesses@[c]);
                    assert(before[c] == self.rows@[c]);
                    assert(before[c] == old(self).rows@[c]);
                }
                if old(self).all_quiet(old(mutable_state).machines@) {
                    assert forall|t: Trace| #[trigger]
                        old(self).system_solution(
                            old(mutable_state).machines@,
                            t,
                        ) implies self.system_completes(mutable_state.machines@, t) by {
                        assert(completes(t, self.fixed, before));
                        assert(completes(t, self.fixed, m.rows@));
                        assert forall|c: int, r: int|
                            0 <= c < self.rows@.len() && 0 <= r < self.rows@[c].len() implies (
                            match #[trigger] self.rows@[c][r] {
                                Some(v) => t.witness[c][r] == v,
                                None => true,
                            }) by {
                            if m.witnesses@[c] {
                                assert(self.rows@[c] == m.rows@[c]);
                                assert(m.rows@[c][r] == self.rows@[c][r]);
                            } else {
                                assert(self.rows@[c] == before[c]);
                                assert(before[c][r] == self.rows@[c][r]);
                            }
                        }
                    }
                }
            }
            k += 1;
        }
        let ghost before = self.rows@;
        let ghost mid = *self;
        proof {
            if old(self).all_quiet(old(mutable_state).machines@) {
                assert forall|c: int, row: int| 0 <= row < mid.fixed.degree implies !#[trigger] can_ask(
                    mid.fixed,
                    mid.witnesses@,
                    mid.rows@,
                    c,
                    row,
                ) by {
                    if 0 <= c < mid.witnesses@.len() && mid.witnesses@[c] {
                        assert forall|j: int| 0 <= j < count implies !(
                        #[trigger] mutable_state.machines@[j]).generator().witnesses@[c] by {
                            let mj = mutable_state.machines@[j].generator();
                            let mj_old = old(mutable_state).machines@[j].generator();
                            assert(mj.same_task(&mj_old));
                            assert(mj_old.apart(old(self)));
                        }
                        assert(mid.rows@[c] == old(self).rows@[c]);
                        assert(!can_ask(
                            old(self).fixed,
                            old(self).witnesses@,
                            old(self).rows@,
                            c,
                            row,
                        ));
                    }
                }
                assert(mid.quiet());
            }
        }
        proof {
            assert forall|j: int, c: int|
                0 <= j < count && 0 <= c < old(self).rows@.len() && (
                #[trigger] mutable_state.machines@[j]).generator().witnesses@[c] implies #[trigger] mid.rows@[c]
                == mutable_state.machines@[j].generator().rows@[c] by {
                assert(self.imported(&mutable_state.machines@[j].generator()));
            }
            assert(Self::taken_over(mid.rows@, old(self).rows@, mutable_state.machines@));
        }
        let result: Result<(), EvalError> = self.run_rows(
            &mut mutable_state.fixed_lookup,
            &mut mutable_state.query_callback,
        );
        proof {
            assert(self.ran_from(mid.rows@, result));
            if old(self).all_quiet(old(mutable_state).machines@) {
                assert forall|t: Trace| #[trigger]
                    old(self).system_solution(
                        old(mutable_state).machines@,
                        t,
                    ) implies self.system_completes(mutable_state.machines@, t) by {
                    assert(mid.system_completes(mutable_state.machines@, t));
                    assert(old(self).solution(t));
                    assert(mid.solution(t));
                }
            }
            crate::rows::lemma_extends_transitive(old(self).rows@, before, self.rows@);
            assert forall|j: int| 0 <= j < count implies self.imported(
                &(#[trigger] mutable_state.machines@[j]).generator(),
            ) by {
                let mj = mutable_state.machines@[j].generator();
                let mj_old = old(mutable_state).machines@[j].generator();
                assert(mj.same_task(&mj_old));
                assert(mj_old.apart(old(self)));
                assert forall|c: int|
                    0 <= c < mj.witnesses@.len() && mj.witnesses@[c] implies #[trigger] self.rows@[c]
                    == mj.rows@[c] by {
                    assert(mj_old.witnesses@[c]);
                    assert(!old(self).witnesses@[c]);
                    assert(before[c] == mj.rows@[c]);
                }
            }
        }
        result
    }
}

} // verus!
