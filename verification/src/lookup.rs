//! Lookups into tables of which every cell is known.
//!
//! The right-hand side of a lookup is such a table where it reads fixed
//! columns only, or witness columns that have been filled on all rows: the
//! columns of a machine, once the machine is done.

use vstd::prelude::*;
use crate::analyzed::SelectedExpressions;
use crate::expression_evaluator::{evaluate, lemma_known_value};
use crate::machines::fixed_lookup::{
    is_fixed_reference,
    is_fixed_table,
    matching_row,
    row_matches,
    same_tuple,
    table_row,
    tuple_matches,
    LookupOutcome,
};
use crate::rows::{cells_wf, completes, lemma_trace_of_wf, trace_of, Cells, Rows};
use crate::trace::Trace;
use crate::verdict::right_known_at;
use crate::FixedData;

verus! {

/// Whether every cell that the right-hand side reads is known, on all rows.
pub open spec fn table_known(fixed: &FixedData, cells: Cells, right: SelectedExpressions) -> bool {
    forall|right_row: int|
        0 <= right_row < fixed.degree ==> #[trigger] right_known_at(fixed, cells, right, right_row)
}

/// The tuple that the right-hand side holds on a row.
pub open spec fn tuple_at(
    fixed: &FixedData,
    cells: Cells,
    right: SelectedExpressions,
    right_row: int,
) -> Seq<u64> {
    Seq::new(
        right.expressions@.len(),
        |k: int| trace_of(fixed, cells).eval(right.expressions@[k], right_row) as u64,
    )
}

/// Whether the row of the table is selected and holds the given value in
/// every place where one is given.
pub open spec fn candidate(
    fixed: &FixedData,
    cells: Cells,
    right: SelectedExpressions,
    args: Seq<Option<u64>>,
    right_row: int,
) -> bool {
    &&& 0 <= right_row < fixed.degree
    &&& trace_of(fixed, cells).selected(right, right_row)
    &&& row_matches(args, tuple_at(fixed, cells, right, right_row))
}

/// What the outcome of a search says of the table.
pub open spec fn outcome_meaning(
    outcome: LookupOutcome,
    fixed: &FixedData,
    cells: Cells,
    right: SelectedExpressions,
    args: Seq<Option<u64>>,
) -> bool {
    match outcome {
        LookupOutcome::Miss => forall|right_row: int|
            !#[trigger] candidate(fixed, cells, right, args, right_row),
        LookupOutcome::Match(values) => {
            &&& exists|right_row: int|
                #[trigger] candidate(fixed, cells, right, args, right_row) && tuple_at(
                    fixed,
                    cells,
                    right,
                    right_row,
                ) == values@
            &&& forall|right_row: int|
                #[trigger] candidate(fixed, cells, right, args, right_row) ==> tuple_at(
                    fixed,
                    cells,
                    right,
                    right_row,
                ) == values@
        },
        LookupOutcome::Ambiguous => exists|right_row: int, other: int|
            #[trigger] candidate(fixed, cells, right, args, right_row) && #[trigger] candidate(
                fixed,
                cells,
                right,
                args,
                other,
            ) && tuple_at(fixed, cells, right, right_row) != tuple_at(fixed, cells, right, other),
    }
}

/// Every trace that gives the known cells their values reads a known row
/// of the table as it stands.
pub proof fn lemma_reads_table(
    fixed: &FixedData,
    cells: Cells,
    t: Trace,
    right: SelectedExpressions,
    right_row: int,
)
    requires
        fixed.wf(),
        cells_wf(fixed, cells),
        completes(t, fixed, cells),
        right.wf(fixed.fixed_count(), fixed.witness_count()),
        0 <= right_row < fixed.degree,
        right_known_at(fixed, cells, right, right_row),
    ensures
        t.selected(right, right_row) == trace_of(fixed, cells).selected(right, right_row),
        forall|k: int|
            0 <= k < right.expressions@.len() ==> t.eval(
                #[trigger] right.expressions@[k],
                right_row,
            ) == tuple_at(fixed, cells, right, right_row)[k],
        forall|k: int|
            0 <= k < right.expressions@.len() ==> (#[trigger] tuple_at(
                fixed,
                cells,
                right,
                right_row,
            )[k]) < fixed.field.modulus,
{
    lemma_trace_of_wf(fixed, cells);
    let here = trace_of(fixed, cells);
    match right.selector {
        Some(s) => {
            lemma_known_value(fixed, cells, t, s, right_row);
        },
        None => {},
    }
    assert forall|k: int| 0 <= k < right.expressions@.len() implies t.eval(
        #[trigger] right.expressions@[k],
        right_row,
    ) == tuple_at(fixed, cells, right, right_row)[k] && tuple_at(
        fixed,
        cells,
        right,
        right_row,
    )[k] < fixed.field.modulus by {
        let e = right.expressions@[k];
        assert(e.wf(fixed.fixed_count(), fixed.witness_count()));
        lemma_known_value(fixed, cells, t, e, right_row);
        here.lemma_eval_in_field(e, right_row);
    }
}

/// A table of fixed columns is known, and holds the tuples of the fixed columns.
pub proof fn lemma_fixed_table(
    fixed: &FixedData,
    cells: Cells,
    right: SelectedExpressions,
    args: Seq<Option<u64>>,
)
    requires
        fixed.wf(),
        cells_wf(fixed, cells),
        right.wf(fixed.fixed_count(), fixed.witness_count()),
        is_fixed_table(right),
    ensures
        table_known(fixed, cells, right),
        forall|right_row: int|
            0 <= right_row < fixed.degree ==> #[trigger] tuple_at(fixed, cells, right, right_row)
                == table_row(fixed, right, right_row),
        forall|right_row: int|
            #[trigger] candidate(fixed, cells, right, args, right_row) == matching_row(
                fixed,
                right,
                args,
                right_row,
            ),
{
    lemma_trace_of_wf(fixed, cells);
    assert forall|right_row: int| 0 <= right_row < fixed.degree implies #[trigger] right_known_at(
        fixed,
        cells,
        right,
        right_row,
    ) && tuple_at(fixed, cells, right, right_row) == table_row(fixed, right, right_row) by {
        assert forall|k: int| 0 <= k < right.expressions@.len() implies crate::expression_evaluator::refs_known(
            cells,
            fixed.degree as int,
            #[trigger] right.expressions@[k],
            right_row,
        ) && tuple_at(fixed, cells, right, right_row)[k] == table_row(fixed, right, right_row)[k] by {
            let e = right.expressions@[k];
            assert(is_fixed_reference(e));
            assert(e.wf(fixed.fixed_count(), fixed.witness_count()));
        }
        assert(tuple_at(fixed, cells, right, right_row) =~= table_row(fixed, right, right_row));
    }
    assert forall|right_row: int|
        #[trigger] candidate(fixed, cells, right, args, right_row) == matching_row(
            fixed,
            right,
            args,
            right_row,
        ) by {
        if 0 <= right_row < fixed.degree {
            assert(tuple_at(fixed, cells, right, right_row) == table_row(fixed, right, right_row));
        }
    }
}

/// Whether a row of the right-hand side is selected, and the tuple that it
/// holds; `None` where the right-hand side reads an open cell on the row.
fn read_right_row(fixed: &FixedData, rows: &Rows, right: &SelectedExpressions, right_row: usize) -> (r:
    Option<(bool, Vec<u64>)>)
    requires
        fixed.wf(),
        rows.wf(fixed),
        right.wf(fixed.fixed_count(), fixed.witness_count()),
        right_row < fixed.degree,
    ensures
        match r {
            Some((selected, tuple)) => {
                &&& right_known_at(fixed, rows@, *right, right_row as int)
                &&& selected == trace_of(fixed, rows@).selected(*right, right_row as int)
                &&& tuple@ == tuple_at(fixed, rows@, *right, right_row as int)
            },
            None => !right_known_at(fixed, rows@, *right, right_row as int),
        },
{
    let selected: bool = match &right.selector {
        Some(s) => match evaluate(fixed, rows, s, right_row) {
            Some(v) => v != 0,
            None => {
                return None;
            },
        },
        None => true,
    };
    let mut tuple: Vec<u64> = Vec::new();
    let mut k: usize = 0;
    while k < right.expressions.len()
        invariant
            fixed.wf(),
            rows.wf(fixed),
            right.wf(fixed.fixed_count(), fixed.witness_count()),
            right_row < fixed.degree,
            k <= right.expressions@.len(),
            tuple@.len() == k,
            forall|j: int|
                0 <= j < k ==> crate::expression_evaluator::refs_known(
                    rows@,
                    fixed.degree as int,
                    #[trigger] right.expressions@[j],
                    right_row as int,
                ),
            forall|j: int|
                0 <= j < k ==> #[trigger] tuple@[j] == tuple_at(
                    fixed,
                    rows@,
                    *right,
                    right_row as int,
                )[j],
        decreases right.expressions.len() - k,
    {
        assert(right.expressions@[k as int].wf(fixed.fixed_count(), fixed.witness_count()));
        match evaluate(fixed, rows, &right.expressions[k], right_row) {
            Some(v) => {
                tuple.push(v);
            },
            None => {
                return None;
            },
        }
        k += 1;
    }
    assert(tuple@ =~= tuple_at(fixed, rows@, *right, right_row as int));
    Some((selected, tuple))
}

/// Looks a tuple up, of which some places are known, in the table that the
/// right-hand side of a lookup is. The answer is `None` where the table is
/// not known on all rows.
pub fn search_table(
    fixed: &FixedData,
    rows: &Rows,
    args: &Vec<Option<u64>>,
    right: &SelectedExpressions,
) -> (r: Option<LookupOutcome>)
    requires
        fixed.wf(),
        rows.wf(fixed),
        right.wf(fixed.fixed_count(), fixed.witness_count()),
        args@.len() == right.expressions@.len(),
    ensures
        r is Some <==> table_known(fixed, rows@, *right),
        match r {
            Some(outcome) => outcome_meaning(outcome, fixed, rows@, *right, args@),
            None => true,
        },
{
    let height: usize = fixed.degree as usize;
    let mut found: Option<Vec<u64>> = None;
    let ghost mut found_row: int = 0;
    let mut ambiguous: bool = false;
    let ghost mut other_rows: (int, int) = (0, 0);
    let mut row: usize = 0;
    while row < height
        invariant
            fixed.wf(),
            rows.wf(fixed),
            right.wf(fixed.fixed_count(), fixed.witness_count()),
            args@.len() == right.expressions@.len(),
            height == fixed.degree,
            row <= height,
            forall|r2: int| 0 <= r2 < row ==> #[trigger] right_known_at(fixed, rows@, *right, r2),
            ambiguous ==> candidate(fixed, rows@, *right, args@, other_rows.0) && candidate(
                fixed,
                rows@,
                *right,
                args@,
                other_rows.1,
            ) && tuple_at(fixed, rows@, *right, other_rows.0) != tuple_at(
                fixed,
                rows@,
                *right,
                other_rows.1,
            ),
            match found {
                Some(values) => {
                    &&& candidate(fixed, rows@, *right, args@, found_row)
                    &&& tuple_at(fixed, rows@, *right, found_row) == values@
                    &&& !ambiguous ==> forall|r2: int|
                        0 <= r2 < row && #[trigger] candidate(fixed, rows@, *right, args@, r2)
                            ==> tuple_at(fixed, rows@, *right, r2) == values@
                },
                None => !ambiguous && forall|r2: int|
                    0 <= r2 < row ==> !#[trigger] candidate(fixed, rows@, *right, args@, r2),
            },
        decreases height - row,
    {
        match read_right_row(fixed, rows, right, row) {
            None => {
                return None;
            },
            Some((selected, tuple)) => {
                if selected && tuple_matches(args, &tuple) {
                    let differs: bool = match &found {
                        Some(values) => !same_tuple(values, &tuple),
                        None => false,
                    };
                    if differs && !ambiguous {
                        ambiguous = true;
                        proof {
                            other_rows = (found_row, row as int);
                        }
                    }
                    if found.is_none() {
                        found = Some(tuple);
                        proof {
                            found_row = row as int;
                        }
                    }
                }
            },
        }
        row += 1;
    }
    if ambiguous {
        Some(LookupOutcome::Ambiguous)
    } else {
        match found {
            Some(values) => {
                proof {
                    assert(candidate(fixed, rows@, *right, args@, found_row));
                }
                Some(LookupOutcome::Match(values))
            },
            None => Some(LookupOutcome::Miss),
        }
    }
}

} // verus!
