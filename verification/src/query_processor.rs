//! The text of a query on a row.

use vstd::prelude::*;
use crate::analyzed::{PolyID, PolynomialType, QueryExpression, QueryItem};
use crate::eval_result::{Cell, Constraint, EvalStatus, EvalValue, IncompleteCause};
use crate::expression_evaluator::{evaluate, refs_known};
use crate::rows::{trace_of, Cells, Rows};
use crate::{FixedData, Query, QueryCallback};

verus! {

pub open spec fn digit(d: nat) -> char {
    if d == 0 {
        '0'
    } else if d == 1 {
        '1'
    } else if d == 2 {
        '2'
    } else if d == 3 {
        '3'
    } else if d == 4 {
        '4'
    } else if d == 5 {
        '5'
    } else if d == 6 {
        '6'
    } else if d == 7 {
        '7'
    } else if d == 8 {
        '8'
    } else {
        '9'
    }
}

/// The decimal digits of a number, without leading zeros.
pub open spec fn decimal(n: nat) -> Seq<char>
    decreases n,
{
    if n < 10 {
        seq![digit(n)]
    } else {
        decimal(n / 10).push(digit(n % 10))
    }
}

/// The text of one part of a query; `None` where the part reads an open cell.
pub open spec fn item_text(fixed: &FixedData, cells: Cells, item: QueryItem, row: int) -> Option<
    Seq<char>,
> {
    match item {
        QueryItem::Text(s) => Some("\""@ + s@ + "\""@),
        QueryItem::RowIndex => Some(decimal(row as nat)),
        QueryItem::Value(e) => if refs_known(cells, fixed.degree as int, e, row) {
            Some(decimal(trace_of(fixed, cells).eval(e, row) as nat))
        } else {
            None
        },
    }
}

/// The text of a query: its parts, separated by a comma and a space;
/// `None` where a part reads an open cell.
pub open spec fn query_text(fixed: &FixedData, cells: Cells, items: Seq<QueryItem>, row: int) -> Option<
    Seq<char>,
>
    decreases items.len(),
{
    if items.len() == 0 {
        Some(Seq::empty())
    } else {
        match (
            query_text(fixed, cells, items.drop_last(), row),
            item_text(fixed, cells, items.last(), row),
        ) {
            (Some(before), Some(text)) => Some(
                if items.len() == 1 {
                    text
                } else {
                    before + ", "@ + text
                },
            ),
            _ => None,
        }
    }
}

/// The decimal digits of a number, as `u64::to_string` writes them: the
/// digits of the number without sign, leading zeros or separators.
#[verifier::external_body]
fn decimal_string(n: u64) -> (r: String)
    ensures
        r@ == decimal(n as nat),
{
    n.to_string()
}

/// The text of one part of a query.
fn interpolate_item(fixed: &FixedData, rows: &Rows, item: &QueryItem, row: usize) -> (r: Option<
    String,
>)
    requires
        fixed.wf(),
        rows.wf(fixed),
        match *item {
            QueryItem::Value(e) => e.wf(fixed.fixed_count(), fixed.witness_count()),
            _ => true,
        },
        row < fixed.degree,
    ensures
        match r {
            Some(text) => item_text(fixed, rows@, *item, row as int) == Some(text@),
            None => item_text(fixed, rows@, *item, row as int) is None,
        },
{
    match item {
        QueryItem::Text(s) => {
            let mut text: String = String::from_str("\"");
            text.append(s.as_str());
            text.append("\"");
            Some(text)
        },
        QueryItem::RowIndex => Some(decimal_string(row as u64)),
        QueryItem::Value(e) => match evaluate(fixed, rows, e, row) {
            Some(v) => Some(decimal_string(v)),
            None => None,
        },
    }
}

/// The text that the query callback is asked with for a row.
pub fn interpolate_query(fixed: &FixedData, rows: &Rows, query: &QueryExpression, row: usize) -> (r:
    Option<String>)
    requires
        fixed.wf(),
        rows.wf(fixed),
        query.wf(fixed.fixed_count(), fixed.witness_count()),
        row < fixed.degree,
    ensures
        match r {
            Some(text) => query_text(fixed, rows@, query.items@, row as int) == Some(text@),
            None => query_text(fixed, rows@, query.items@, row as int) is None,
        },
{
    let mut text: String = String::new();
    let mut k: usize = 0;
    while k < query.items.len()
        invariant
            fixed.wf(),
            rows.wf(fixed),
            query.wf(fixed.fixed_count(), fixed.witness_count()),
            row < fixed.degree,
            k <= query.items@.len(),
            query_text(fixed, rows@, query.items@.take(k as int), row as int) == Some(text@),
        decreases query.items.len() - k,
    {
        proof {
            let s = query.items@.take(k as int + 1);
            assert(s.drop_last() == query.items@.take(k as int));
            assert(s.last() == query.items@[k as int]);
        }
        match interpolate_item(fixed, rows, &query.items[k], row) {
            Some(part) => {
                if k > 0 {
                    text.append(", ");
                }
                text.append(part.as_str());
                proof {
                    if k == 0 {
                        assert(Seq::<char>::empty() + part@ == part@);
                    }
                }
            },
            None => {
                proof {
                    lemma_query_text_none(fixed, rows@, query.items@, k as int + 1, row as int);
                }
                return None;
            },
        }
        k += 1;
    }
    proof {
        assert(query.items@.take(k as int) == query.items@);
    }
    Some(text)
}

/// A query of which a beginning has no text has no text.
proof fn lemma_query_text_none(fixed: &FixedData, cells: Cells, items: Seq<QueryItem>, n: int, row: int)
    requires
        0 <= n <= items.len(),
        query_text(fixed, cells, items.take(n), row) is None,
    ensures
        query_text(fixed, cells, items, row) is None,
    decreases items.len() - n,
{
    if n < items.len() {
        let s = items.take(n + 1);
        assert(s.drop_last() == items.take(n));
        lemma_query_text_none(fixed, cells, items, n + 1, row);
    } else {
        assert(items.take(n) == items);
    }
}

/// Whether the outcome is the one that the answer gives for the column: a
/// value is assigned to the column on the row, as the field element that it
/// stands for; without an answer nothing is known.
pub open spec fn answer_outcome(
    fixed: &FixedData,
    column: usize,
    answer: Option<u64>,
    r: EvalValue,
) -> bool {
    match answer {
        Some(v) => r.status == EvalStatus::Complete && r.constraints@ == seq![
            (
                Cell { column, next: false },
                Constraint::Assignment((v % fixed.field.modulus) as u64),
            ),
        ],
        None => r.status == EvalStatus::Incomplete(IncompleteCause::NoQueryAnswer)
            && r.constraints@.len() == 0,
    }
}

/// What an answer of the query callback says of the column that was asked
/// for.
pub fn query_outcome(fixed: &FixedData, column: usize, answer: Option<u64>) -> (r: EvalValue)
    requires
        fixed.wf(),
    ensures
        answer_outcome(fixed, column, answer, r),
{
    match answer {
        Some(v) => {
            let mut constraints: Vec<(Cell, Constraint)> = Vec::new();
            constraints.push(
                (Cell { column, next: false }, Constraint::Assignment(fixed.field.reduce(v))),
            );
            EvalValue::complete(constraints)
        },
        None => EvalValue::incomplete(Vec::new(), IncompleteCause::NoQueryAnswer),
    }
}

/// Asks the query callback for the value of a column on a row. The callback
/// is asked with the text of the query, if the text can be written; what it
/// answers decides the outcome, as `query_outcome` says.
pub fn process_query<Q: QueryCallback>(
    fixed: &FixedData,
    rows: &Rows,
    query_callback: &mut Q,
    query: &Query,
    column: usize,
    row: usize,
) -> (r: EvalValue)
    requires
        fixed.wf(),
        rows.wf(fixed),
        query.expr.wf(fixed.fixed_count(), fixed.witness_count()),
        query.poly.poly_id == Some(PolyID { id: column as u64, ptype: PolynomialType::Committed }),
        column < fixed.witness_count(),
        row < fixed.degree,
    ensures
        query_text(fixed, rows@, query.expr.items@, row as int) is None ==> r.status
            == EvalStatus::Incomplete(IncompleteCause::UnknownQueryArgument)
            && r.constraints@.len() == 0,
        r.constraints@.len() <= 1,
        forall|j: int|
            0 <= j < r.constraints@.len() ==> (#[trigger] r.constraints@[j]).0 == (Cell {
                column,
                next: false,
            }) && match r.constraints@[j].1 {
                Constraint::Assignment(v) => v < fixed.field.modulus,
            },
        r.status == EvalStatus::Complete <==> r.constraints@.len() == 1,
        query_text(fixed, rows@, query.expr.items@, row as int) is Some ==> exists|
            answer: Option<u64>,
        | #[trigger] answer_outcome(fixed, column, answer, r),
{
    match interpolate_query(fixed, rows, query.expr, row) {
        Some(text) => {
            let answer: Option<u64> = query_callback.query(text.as_str());
            query_outcome(fixed, column, answer)
        },
        None => EvalValue::incomplete(Vec::new(), IncompleteCause::UnknownQueryArgument),
    }
}

} // verus!
