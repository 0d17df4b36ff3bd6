//! Lookups into tables that consist of fixed columns only.

use vstd::prelude::*;
use crate::analyzed::{Expression, PolynomialType, SelectedExpressions};
use crate::FixedData;

verus! {

/// Whether the expression is a fixed column on the current row.
pub open spec fn is_fixed_reference(e: Expression) -> bool {
    match e {
        Expression::PolynomialReference(r) => !r.next && match r.poly_id {
            Some(p) => p.ptype == PolynomialType::Constant,
            None => false,
        },
        _ => false,
    }
}

/// The fixed column that the expression is.
pub open spec fn fixed_column(e: Expression) -> int {
    match e {
        Expression::PolynomialReference(r) => match r.poly_id {
            Some(p) => p.id as int,
            None => 0,
        },
        _ => 0,
    }
}

/// Whether the right-hand side of a lookup is a table of fixed columns, all
/// of whose rows are selected.
pub open spec fn is_fixed_table(right: SelectedExpressions) -> bool {
    &&& right.selector is None
    &&& forall|k: int|
        0 <= k < right.expressions@.len() ==> is_fixed_reference(#[trigger] right.expressions@[k])
}

/// The tuple that the table holds on a row.
pub open spec fn table_row(fixed: &FixedData, right: SelectedExpressions, row: int) -> Seq<u64> {
    Seq::new(
        right.expressions@.len(),
        |k: int| fixed.fixed_values()[fixed_column(right.expressions@[k])][row],
    )
}

/// Whether a tuple has the given value in every place where one is given.
pub open spec fn row_matches(args: Seq<Option<u64>>, tuple: Seq<u64>) -> bool {
    forall|k: int|
        0 <= k < args.len() ==> match #[trigger] args[k] {
            Some(v) => v == tuple[k],
            None => true,
        }
}

/// Whether the table's tuple on the row matches.
pub open spec fn matching_row(
    fixed: &FixedData,
    right: SelectedExpressions,
    args: Seq<Option<u64>>,
    row: int,
) -> bool {
    0 <= row < fixed.degree && row_matches(args, table_row(fixed, right, row))
}

/// What a table says of a tuple of which some places are known.
#[derive(Debug)]
pub enum LookupOutcome {
    /// No row of the table matches the known places.
    Miss,
    /// Every row that matches holds this tuple.
    Match(Vec<u64>),
    /// Rows with different tuples match.
    Ambiguous,
}

/// The machine that answers lookups into tables of fixed columns.
pub struct FixedLookup {}

/// The columns of a table of fixed columns; `None` where the right-hand side is no such table.
fn fixed_columns(fixed: &FixedData, right: &SelectedExpressions) -> (r: Option<Vec<usize>>)
    requires
        right.wf(fixed.fixed_count(), fixed.witness_count()),
    ensures
        match r {
            Some(columns) => {
                &&& is_fixed_table(*right)
                &&& columns@.len() == right.expressions@.len()
                &&& forall|k: int|
                    0 <= k < columns@.len() ==> #[trigger] columns@[k] == fixed_column(
                        right.expressions@[k],
                    ) && columns@[k] < fixed.fixed_count()
            },
            None => !is_fixed_table(*right),
        },
{
    if right.selector.is_some() {
        return None;
    }
    let width: usize = fixed.fixed_cols.len();
    let mut columns: Vec<usize> = Vec::new();
    let mut k: usize = 0;
    while k < right.expressions.len()
        invariant
            k <= right.expressions@.len(),
            width == fixed.fixed_count(),
            right.wf(fixed.fixed_count(), fixed.witness_count()),
            columns@.len() == k,
            forall|j: int| 0 <= j < k ==> is_fixed_reference(#[trigger] right.expressions@[j]),
            forall|j: int|
                0 <= j < k ==> #[trigger] columns@[j] == fixed_column(right.expressions@[j])
                    && columns@[j] < fixed.fixed_count(),
        decreases right.expressions.len() - k,
    {
        assert(right.expressions@[k as int].wf(fixed.fixed_count(), fixed.witness_count()));
        let column: Option<u64> = match &right.expressions[k] {
            Expression::PolynomialReference(r) => {
                if r.next {
                    None
                } else {
                    match r.poly_id {
                        Some(p) => match p.ptype {
                            PolynomialType::Constant => Some(p.id),
                            _ => None,
                        },
                        None => None,
                    }
                }
            },
            _ => None,
        };
        match column {
            Some(id) => {
                assert(id < width);
                columns.push(id as usize);
            },
            None => {
                assert(!is_fixed_reference(right.expressions@[k as int]));
                return None;
            },
        }
        k += 1;
    }
    Some(columns)
}

/// The tuple that the table holds on a row.
fn read_row(fixed: &FixedData, right: &SelectedExpressions, columns: &Vec<usize>, row: usize) -> (r:
    Vec<u64>)
    requires
        fixed.wf(),
        row < fixed.degree,
        columns@.len() == right.expressions@.len(),
        forall|k: int|
            0 <= k < columns@.len() ==> #[trigger] columns@[k] == fixed_column(
                right.expressions@[k],
            ) && columns@[k] < fixed.fixed_count(),
    ensures
        r@ == table_row(fixed, *right, row as int),
{
    let mut tuple: Vec<u64> = Vec::new();
    let mut k: usize = 0;
    while k < columns.len()
        invariant
            fixed.wf(),
            row < fixed.degree,
            k <= columns@.len(),
            columns@.len() == right.expressions@.len(),
            forall|j: int|
                0 <= j < columns@.len() ==> #[trigger] columns@[j] == fixed_column(
                    right.expressions@[j],
                ) && columns@[j] < fixed.fixed_count(),
            tuple@.len() == k,
            forall|j: int|
                0 <= j < k ==> #[trigger] tuple@[j] == table_row(fixed, *right, row as int)[j],
        decreases columns.len() - k,
    {
        let c: usize = columns[k];
        assert(fixed.fixed_cols.values@[c as int].values@.len() == fixed.degree);
        tuple.push(fixed.fixed_cols.values[c].values[row]);
        k += 1;
    }
    assert(tuple@ =~= table_row(fixed, *right, row as int));
    tuple
}

/// Whether a tuple has the given value in every place where one is given.
pub fn tuple_matches(args: &Vec<Option<u64>>, tuple: &Vec<u64>) -> (r: bool)
    requires
        args@.len() == tuple@.len(),
    ensures
        r == row_matches(args@, tuple@),
{
    let mut k: usize = 0;
    while k < args.len()
        invariant
            k <= args@.len(),
            args@.len() == tuple@.len(),
            forall|j: int|
                0 <= j < k ==> match #[trigger] args@[j] {
                    Some(v) => v == tuple@[j],
                    None => true,
                },
        decreases args.len() - k,
    {
        match args[k] {
            Some(v) => {
                if v != tuple[k] {
                    return false;
                }
            },
            None => {},
        }
        k += 1;
    }
    true
}

/// Whether two tuples are the same.
pub fn same_tuple(a: &Vec<u64>, b: &Vec<u64>) -> (r: bool)
    ensures
        r == (a@ == b@),
{
    if a.len() != b.len() {
        return false;
    }
    let mut k: usize = 0;
    while k < a.len()
        invariant
            k <= a@.len(),
            a@.len() == b@.len(),
            forall|j: int| 0 <= j < k ==> #[trigger] a@[j] == b@[j],
        decreases a.len() - k,
    {
        if a[k] != b[k] {
            return false;
        }
        k += 1;
    }
    assert(a@ =~= b@);
    true
}

impl FixedLookup {
    pub fn new() -> (r: FixedLookup) {
        FixedLookup {  }
    }

    /// Looks a tuple up of which some places are known. The answer is `None`
    /// where the right-hand side is no table of fixed columns; this machine
    /// is then not the one to ask.
    pub fn process_plookup(
        &mut self,
        fixed: &FixedData,
        args: &Vec<Option<u64>>,
        right: &SelectedExpressions,
    ) -> (r: Option<LookupOutcome>)
        requires
            fixed.wf(),
            right.wf(fixed.fixed_count(), fixed.witness_count()),
            args@.len() == right.expressions@.len(),
        ensures
            match r {
                None => !is_fixed_table(*right),
                Some(LookupOutcome::Miss) => is_fixed_table(*right) && forall|row: int|
                    !#[trigger] matching_row(fixed, *right, args@, row),
                Some(LookupOutcome::Match(values)) => {
                    &&& is_fixed_table(*right)
                    &&& exists|row: int|
                        #[trigger] matching_row(fixed, *right, args@, row) && table_row(
                            fixed,
                            *right,
                            row,
                        ) == values@
                    &&& forall|row: int|
                        #[trigger] matching_row(fixed, *right, args@, row) ==> table_row(
                            fixed,
                            *right,
                            row,
                        ) == values@
                },
                Some(LookupOutcome::Ambiguous) => is_fixed_table(*right) && exists|
                    row: int,
                    other: int,
                |
                    #[trigger] matching_row(fixed, *right, args@, row) && #[trigger] matching_row(
                        fixed,
                        *right,
                        args@,
                        other,
                    ) && table_row(fixed, *right, row) != table_row(fixed, *right, other),
            },
    {
        let columns: Vec<usize> = match fixed_columns(fixed, right) {
            Some(columns) => columns,
            None => {
                return None;
            },
        };
        let height: usize = fixed.degree as usize;
        let mut found: Option<Vec<u64>> = None;
        let ghost mut found_row: int = 0;
        let mut row: usize = 0;
        while row < height
            invariant
                fixed.wf(),
                height == fixed.degree,
                row <= height,
                is_fixed_table(*right),
                args@.len() == right.expressions@.len(),
                columns@.len() == right.expressions@.len(),
                forall|k: int|
                    0 <= k < columns@.len() ==> #[trigger] columns@[k] == fixed_column(
                        right.expressions@[k],
                    ) && columns@[k] < fixed.fixed_count(),
                match found {
                    Some(values) => {
                        &&& matching_row(fixed, *right, args@, found_row)
                        &&& table_row(fixed, *right, found_row) == values@
                        &&& forall|r2: int|
                            0 <= r2 < row && #[trigger] matching_row(fixed, *right, args@, r2)
                                ==> table_row(fixed, *right, r2) == values@
                    },
                    None => forall|r2: int|
                        0 <= r2 < row ==> !#[trigger] matching_row(fixed, *right, args@, r2),
                },
            decreases height - row,
        {
            let tuple: Vec<u64> = read_row(fixed, right, &columns, row);
            if tuple_matches(args, &tuple) {
                let differs: bool = match &found {
                    Some(values) => !same_tuple(values, &tuple),
                    None => false,
                };
                if differs {
                    proof {
                        assert(matching_row(fixed, *right, args@, found_row));
                        assert(matching_row(fixed, *right, args@, row as int));
                    }
                    return Some(LookupOutcome::Ambiguous);
                }
                if found.is_none() {
                    found = Some(tuple);
                    proof {
                        found_row = row as int;
                    }
                }
            }
            row += 1;
        }
        match found {
            Some(values) => {
                proof {
                    assert(matching_row(fixed, *right, args@, found_row));
                }
                Some(LookupOutcome::Match(values))
            },
            None => Some(LookupOutcome::Miss),
        }
    }
}

} // verus!
