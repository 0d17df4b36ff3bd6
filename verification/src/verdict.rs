//! The judgement of an identity on a row by the cells that are known.

use vstd::prelude::*;
use crate::analyzed::{Identity, SelectedExpressions};
use crate::expression_evaluator::{evaluate, lemma_known_value, lemma_open_reference, refs_known};
use crate::identity_processor::{known_values, unsatisfiable};
use crate::rows::{column_known, completes, lemma_trace_of_wf, trace_of, Cells, Rows};
use crate::trace::Trace;
use crate::FixedData;

verus! {

/// What the known cells say of an identity on a row.
#[derive(Clone, Copy, Debug, PartialEq, Eq, Structural)]
pub enum Verdict {
    /// The identity holds.
    Holds,
    /// The identity is contradicted.
    Violated,
    /// The identity reads a cell that is open.
    Unresolved,
}

/// Whether every cell that the right-hand side of a lookup reads on a row is known.
pub open spec fn right_known_at(
    fixed: &FixedData,
    cells: Cells,
    right: SelectedExpressions,
    right_row: int,
) -> bool {
    &&& match right.selector {
        Some(s) => refs_known(cells, fixed.degree as int, s, right_row),
        None => true,
    }
    &&& forall|k: int|
        0 <= k < right.expressions@.len() ==> refs_known(
            cells,
            fixed.degree as int,
            #[trigger] right.expressions@[k],
            right_row,
        )
}

/// Whether the known cells decide a lookup on a row: the selector is
/// known and, unless it is zero, the left tuple is known and either a
/// known row of the right-hand side matches it or all rows are known.
pub open spec fn lookup_determined(
    fixed: &FixedData,
    cells: Cells,
    left: SelectedExpressions,
    right: SelectedExpressions,
    row: int,
) -> bool {
    &&& match left.selector {
        Some(s) => refs_known(cells, fixed.degree as int, s, row),
        None => true,
    }
    &&& trace_of(fixed, cells).selected(left, row) ==> {
        &&& forall|k: int|
            0 <= k < left.expressions@.len() ==> refs_known(
                cells,
                fixed.degree as int,
                #[trigger] left.expressions@[k],
                row,
            )
        &&& {
            ||| exists|right_row: int|
                right_known_at(fixed, cells, right, right_row) && #[trigger] trace_of(
                    fixed,
                    cells,
                ).is_match(left, right, row, right_row)
            ||| forall|right_row: int|
                0 <= right_row < fixed.degree ==> #[trigger] right_known_at(
                    fixed,
                    cells,
                    right,
                    right_row,
                )
        }
    }
}

/// Whether the known cells decide the identity on a row.
pub open spec fn determined(fixed: &FixedData, cells: Cells, identity: Identity, row: int) -> bool {
    match identity {
        Identity::Polynomial(e) => refs_known(cells, fixed.degree as int, e, row),
        Identity::Plookup(left, right) => lookup_determined(fixed, cells, left, right, row),
    }
}

/// What a verdict claims. The verdict is open exactly where the known
/// cells do not decide the identity; where they do, it tells whether the
/// identity holds.
pub open spec fn verdict_meaning(
    verdict: Verdict,
    fixed: &FixedData,
    cells: Cells,
    identity: Identity,
    row: int,
) -> bool {
    match verdict {
        Verdict::Holds => determined(fixed, cells, identity, row) && trace_of(
            fixed,
            cells,
        ).holds_at(identity, row),
        Verdict::Violated => determined(fixed, cells, identity, row) && unsatisfiable(
            fixed,
            cells,
            identity,
            row,
        ),
        Verdict::Unresolved => !determined(fixed, cells, identity, row) && reads_open(
            fixed,
            cells,
            identity,
        ),
    }
}

/// Whether the identity mentions a witness column that is not fully known.
pub open spec fn reads_open(fixed: &FixedData, cells: Cells, identity: Identity) -> bool {
    exists|c: int|
        0 <= c < fixed.witness_count() && #[trigger] identity.mentions(c) && !column_known(cells, c)
}

/// Whether one side of a lookup mentions a witness column that is not fully known.
pub open spec fn side_reads_open(fixed: &FixedData, cells: Cells, side: SelectedExpressions) -> bool {
    exists|c: int|
        0 <= c < fixed.witness_count() && #[trigger] side.mentions(c) && !column_known(cells, c)
}

/// A selector that reads an open cell makes its side read one.
proof fn lemma_open_selector(fixed: &FixedData, cells: Cells, side: SelectedExpressions, row: int)
    requires
        fixed.wf(),
        crate::rows::cells_wf(fixed, cells),
        side.wf(fixed.fixed_count(), fixed.witness_count()),
        0 <= row < fixed.degree,
        side.selector is Some,
        !refs_known(cells, fixed.degree as int, side.selector->0, row),
    ensures
        side_reads_open(fixed, cells, side),
{
    let e = side.selector->0;
    lemma_open_reference(fixed, cells, e, row);
    let c = choose|c: int|
        0 <= c < fixed.witness_count() && #[trigger] e.mentions(c) && !column_known(cells, c);
    assert(side.mentions(c));
}

/// An expression of a tuple that reads an open cell makes its side read one.
proof fn lemma_open_place(
    fixed: &FixedData,
    cells: Cells,
    side: SelectedExpressions,
    k: int,
    row: int,
)
    requires
        fixed.wf(),
        crate::rows::cells_wf(fixed, cells),
        side.wf(fixed.fixed_count(), fixed.witness_count()),
        0 <= row < fixed.degree,
        0 <= k < side.expressions@.len(),
        !refs_known(cells, fixed.degree as int, side.expressions@[k], row),
    ensures
        side_reads_open(fixed, cells, side),
{
    let e = side.expressions@[k];
    assert(e.wf(fixed.fixed_count(), fixed.witness_count()));
    lemma_open_reference(fixed, cells, e, row);
    let c = choose|c: int|
        0 <= c < fixed.witness_count() && #[trigger] e.mentions(c) && !column_known(cells, c);
    assert(crate::analyzed::expressions_mention(side.expressions@, c));
    assert(side.mentions(c));
}

/// The values of a tuple, if all of them are known.
fn all_values(values: &Vec<Option<u64>>) -> (r: Option<Vec<u64>>)
    ensures
        match r {
            Some(v) => v@.len() == values@.len() && forall|k: int|
                0 <= k < v@.len() ==> values@[k] == Some(#[trigger] v@[k]),
            None => exists|k: int| 0 <= k < values@.len() && (#[trigger] values@[k]) is None,
        },
{
    let mut r: Vec<u64> = Vec::new();
    let mut k: usize = 0;
    while k < values.len()
        invariant
            k <= values@.len(),
            r@.len() == k,
            forall|j: int| 0 <= j < k ==> values@[j] == Some(#[trigger] r@[j]),
        decreases values.len() - k,
    {
        match values[k] {
            Some(v) => {
                r.push(v);
            },
            None => {
                return None;
            },
        }
        k += 1;
    }
    Some(r)
}

/// Whether a row of the right-hand side is selected and holds the given
/// tuple; `None` where the right-hand side reads an open cell on that row.
fn right_row_matches(
    fixed: &FixedData,
    rows: &Rows,
    tuple: &Vec<u64>,
    right: &SelectedExpressions,
    right_row: usize,
) -> (r: Option<bool>)
    requires
        fixed.wf(),
        rows.wf(fixed),
        right.wf(fixed.fixed_count(), fixed.witness_count()),
        tuple@.len() == right.expressions@.len(),
        right_row < fixed.degree,
    ensures
        match r {
            Some(b) => {
                &&& match right.selector {
                    Some(s) => refs_known(rows@, fixed.degree as int, s, right_row as int),
                    None => true,
                }
                &&& forall|k: int|
                    0 <= k < tuple@.len() ==> refs_known(
                        rows@,
                        fixed.degree as int,
                        #[trigger] right.expressions@[k],
                        right_row as int,
                    )
                &&& b == (trace_of(fixed, rows@).selected(*right, right_row as int) && forall|
                    k: int,
                |
                    0 <= k < tuple@.len() ==> tuple@[k] == trace_of(fixed, rows@).eval(
                        #[trigger] right.expressions@[k],
                        right_row as int,
                    ))
            },
            None => side_reads_open(fixed, rows@, *right) && !right_known_at(
                fixed,
                rows@,
                *right,
                right_row as int,
            ),
        },
{
    let selected: bool = match &right.selector {
        Some(s) => match evaluate(fixed, rows, s, right_row) {
            Some(v) => v != 0,
            None => {
                proof {
                    lemma_open_selector(fixed, rows@, *right, right_row as int);
                }
                return None;
            },
        },
        None => true,
    };
    let mut equal: bool = true;
    let mut k: usize = 0;
    while k < tuple.len()
        invariant
            fixed.wf(),
            rows.wf(fixed),
            right.wf(fixed.fixed_count(), fixed.witness_count()),
            tuple@.len() == right.expressions@.len(),
            right_row < fixed.degree,
            k <= tuple@.len(),
            forall|j: int|
                0 <= j < k ==> refs_known(
                    rows@,
                    fixed.degree as int,
                    #[trigger] right.expressions@[j],
                    right_row as int,
                ),
            equal == forall|j: int|
                0 <= j < k ==> tuple@[j] == trace_of(fixed, rows@).eval(
                    #[trigger] right.expressions@[j],
                    right_row as int,
                ),
        decreases tuple.len() - k,
    {
        assert(right.expressions@[k as int].wf(fixed.fixed_count(), fixed.witness_count()));
        match evaluate(fixed, rows, &right.expressions[k], right_row) {
            Some(v) => {
                if v != tuple[k] {
                    equal = false;
                }
            },
            None => {
                proof {
                    lemma_open_place(fixed, rows@, *right, k as int, right_row as int);
                }
                return None;
            },
        }
        k += 1;
    }
    Some(selected && equal)
}

/// Every cell that the right-hand side reads on `right_row` is known, and
/// the row is no match for the left tuple of `row`.
pub open spec fn known_mismatch(
    fixed: &FixedData,
    cells: Cells,
    left: SelectedExpressions,
    right: SelectedExpressions,
    row: int,
    right_row: int,
) -> bool {
    &&& right_known_at(fixed, cells, right, right_row)
    &&& !trace_of(fixed, cells).is_match(left, right, row, right_row)
}

/// If the right-hand side is known on the row, the row is no match.
pub open spec fn no_known_match(
    fixed: &FixedData,
    cells: Cells,
    left: SelectedExpressions,
    right: SelectedExpressions,
    row: int,
    right_row: int,
) -> bool {
    right_known_at(fixed, cells, right, right_row) ==> !trace_of(fixed, cells).is_match(
        left,
        right,
        row,
        right_row,
    )
}

/// Judges a lookup on a row by the known cells.
fn check_lookup(
    fixed: &FixedData,
    rows: &Rows,
    left: &SelectedExpressions,
    right: &SelectedExpressions,
    row: usize,
) -> (r: Verdict)
    requires
        fixed.wf(),
        rows.wf(fixed),
        left.wf(fixed.fixed_count(), fixed.witness_count()),
        right.wf(fixed.fixed_count(), fixed.witness_count()),
        left.expressions@.len() == right.expressions@.len(),
        row < fixed.degree,
    ensures
        (r == Verdict::Unresolved) == !lookup_determined(fixed, rows@, *left, *right, row as int),
        match r {
            Verdict::Holds => trace_of(fixed, rows@).selected(*left, row as int) ==> exists|
                right_row: int,
            |
                #[trigger] trace_of(fixed, rows@).is_match(*left, *right, row as int, right_row),
            Verdict::Violated => forall|t: Trace| #[trigger]
                completes(t, fixed, rows@) ==> t.selected(*left, row as int) && forall|
                    right_row: int,
                |
                    !#[trigger] t.is_match(*left, *right, row as int, right_row),
            Verdict::Unresolved => side_reads_open(fixed, rows@, *left) || side_reads_open(
                fixed,
                rows@,
                *right,
            ),
        },
{
    let ghost here = trace_of(fixed, rows@);
    match &left.selector {
        Some(s) => match evaluate(fixed, rows, s, row) {
            None => {
                proof {
                    lemma_open_selector(fixed, rows@, *left, row as int);
                }
                return Verdict::Unresolved;
            },
            Some(v) => {
                if v == 0 {
                    return Verdict::Holds;
                }
            },
        },
        None => {},
    }
    let partial: Vec<Option<u64>> = known_values(fixed, rows, &left.expressions, row);
    let tuple: Vec<u64> = match all_values(&partial) {
        Some(tuple) => tuple,
        None => {
            proof {
                let k = choose|k: int| 0 <= k < partial@.len() && (#[trigger] partial@[k]) is None;
                lemma_open_place(fixed, rows@, *left, k, row as int);
                assert(!refs_known(rows@, fixed.degree as int, left.expressions@[k], row as int));
            }
            return Verdict::Unresolved;
        },
    };
    proof {
        assert forall|k: int| 0 <= k < tuple@.len() implies refs_known(
            rows@,
            fixed.degree as int,
            #[trigger] left.expressions@[k],
            row as int,
        ) && tuple@[k] == here.eval(left.expressions@[k], row as int) by {
            assert(partial@[k] == Some(tuple@[k]));
        }
    }
    let height: usize = fixed.degree as usize;
    let mut unknown_seen: bool = false;
    let ghost mut unknown_row: int = 0;
    let mut right_row: usize = 0;
    while right_row < height
        invariant
            fixed.wf(),
            rows.wf(fixed),
            right.wf(fixed.fixed_count(), fixed.witness_count()),
            tuple@.len() == right.expressions@.len(),
            tuple@.len() == left.expressions@.len(),
            height == fixed.degree,
            right_row <= height,
            here == trace_of(fixed, rows@),
            row < fixed.degree,
            forall|k: int|
                0 <= k < tuple@.len() ==> tuple@[k] == here.eval(
                    #[trigger] left.expressions@[k],
                    row as int,
                ),
            match left.selector {
                Some(s) => refs_known(rows@, fixed.degree as int, s, row as int),
                None => true,
            },
            here.selected(*left, row as int),
            forall|k: int|
                0 <= k < left.expressions@.len() ==> refs_known(
                    rows@,
                    fixed.degree as int,
                    #[trigger] left.expressions@[k],
                    row as int,
                ),
            unknown_seen ==> side_reads_open(fixed, rows@, *right),
            unknown_seen ==> 0 <= unknown_row < right_row && !right_known_at(
                fixed,
                rows@,
                *right,
                unknown_row,
            ),
            !unknown_seen ==> forall|r2: int|
                0 <= r2 < right_row ==> #[trigger] known_mismatch(
                    fixed,
                    rows@,
                    *left,
                    *right,
                    row as int,
                    r2,
                ),
            forall|r2: int|
                0 <= r2 < right_row ==> #[trigger] no_known_match(
                    fixed,
                    rows@,
                    *left,
                    *right,
                    row as int,
                    r2,
                ),
        decreases height - right_row,
    {
        match right_row_matches(fixed, rows, &tuple, right, right_row) {
            Some(true) => {
                proof {
                    assert(here.is_match(*left, *right, row as int, right_row as int));
                    assert(right_known_at(fixed, rows@, *right, right_row as int));
                }
                return Verdict::Holds;
            },
            Some(false) => {
                proof {
                    if here.is_match(*left, *right, row as int, right_row as int) {
                        assert(here.selected(*right, right_row as int));
                        assert forall|k: int| 0 <= k < tuple@.len() implies tuple@[k] == here.eval(
                            #[trigger] right.expressions@[k],
                            right_row as int,
                        ) by {
                            assert(here.eval(left.expressions@[k], row as int) == here.eval(
                                right.expressions@[k],
                                right_row as int,
                            ));
                        }
                        assert(false);
                    }
                    assert(known_mismatch(
                        fixed,
                        rows@,
                        *left,
                        *right,
                        row as int,
                        right_row as int,
                    ));
                }
            },
            None => {
                unknown_seen = true;
                proof {
                    unknown_row = right_row as int;
                }
            },
        }
        right_row += 1;
    }
    if unknown_seen {
        proof {
            assert forall|r2: int|
                right_known_at(fixed, rows@, *right, r2) && #[trigger] here.is_match(
                    *left,
                    *right,
                    row as int,
                    r2,
                ) implies false by {
                assert(no_known_match(fixed, rows@, *left, *right, row as int, r2));
            }
        }
        return Verdict::Unresolved;
    }
    proof {
        assert forall|r2: int| 0 <= r2 < fixed.degree implies #[trigger] right_known_at(
            fixed,
            rows@,
            *right,
            r2,
        ) by {
            assert(known_mismatch(fixed, rows@, *left, *right, row as int, r2));
        }
    }
    proof {
        assert forall|t: Trace| #[trigger] completes(t, fixed, rows@) implies t.selected(
            *left,
            row as int,
        ) && forall|r2: int| !#[trigger] t.is_match(*left, *right, row as int, r2) by {
            lemma_trace_of_wf(fixed, rows@);
            match left.selector {
                Some(s) => {
                    lemma_known_value(fixed, rows@, t, s, row as int);
                },
                None => {},
            }
            assert forall|r2: int| !#[trigger] t.is_match(*left, *right, row as int, r2) by {
                if t.is_match(*left, *right, row as int, r2) {
                    assert(known_mismatch(fixed, rows@, *left, *right, row as int, r2));
                    assert(!here.is_match(*left, *right, row as int, r2));
                    match right.selector {
                        Some(s) => {
                            lemma_known_value(fixed, rows@, t, s, r2);
                        },
                        None => {},
                    }
                    assert(here.selected(*right, r2));
                    assert forall|k: int| 0 <= k < left.expressions@.len() implies here.eval(
                        #[trigger] left.expressions@[k],
                        row as int,
                    ) == here.eval(right.expressions@[k], r2) by {
                        assert(left.expressions@[k].wf(fixed.fixed_count(), fixed.witness_count()));
                        assert(right.expressions@[k].wf(
                            fixed.fixed_count(),
                            fixed.witness_count(),
                        ));
                        lemma_known_value(fixed, rows@, t, left.expressions@[k], row as int);
                        lemma_known_value(fixed, rows@, t, right.expressions@[k], r2);
                    }
                    assert(false);
                }
            }
        }
    }
    Verdict::Violated
}

/// Judges an identity on a row by the known cells.
pub fn check_identity(fixed: &FixedData, rows: &Rows, identity: &Identity, row: usize) -> (r:
    Verdict)
    requires
        fixed.wf(),
        rows.wf(fixed),
        identity.wf(fixed.fixed_count(), fixed.witness_count()),
        row < fixed.degree,
    ensures
        verdict_meaning(r, fixed, rows@, *identity, row as int),
{
    match identity {
        Identity::Polynomial(e) => match evaluate(fixed, rows, e, row) {
            Some(v) => {
                if v == 0 {
                    Verdict::Holds
                } else {
                    proof {
                        assert forall|t: Trace| #[trigger] completes(t, fixed, rows@) implies !t.holds_at(
                            *identity,
                            row as int,
                        ) by {
                            lemma_known_value(fixed, rows@, t, *e, row as int);
                        }
                    }
                    Verdict::Violated
                }
            },
            None => {
                proof {
                    lemma_open_reference(fixed, rows@, *e, row as int);
                    let c = choose|c: int|
                        0 <= c < fixed.witness_count() && #[trigger] e.mentions(c) && !column_known(
                            rows@,
                            c,
                        );
                    assert(identity.mentions(c));
                }
                Verdict::Unresolved
            },
        },
        Identity::Plookup(left, right) => {
            let verdict: Verdict = check_lookup(fixed, rows, left, right, row);
            proof {
                if verdict == Verdict::Unresolved {
                    if side_reads_open(fixed, rows@, *left) {
                        let c = choose|c: int|
                            0 <= c < fixed.witness_count() && #[trigger] left.mentions(c)
                                && !column_known(rows@, c);
                        assert(identity.mentions(c));
                    } else {
                        let c = choose|c: int|
                            0 <= c < fixed.witness_count() && #[trigger] right.mentions(c)
                                && !column_known(rows@, c);
                        assert(identity.mentions(c));
                    }
                }
            }
            verdict
        },
    }
}

} // verus!
