//! Evaluation of expressions on the cells that are known.

use vstd::prelude::*;
use crate::analyzed::{
    BinaryOperator,
    Expression,
    PolynomialReference,
    PolynomialType,
    UnaryOperator,
};
use crate::affine_expression::{lemma_forms_wf, lemma_leaves_wf, AffineExpression, AffineForm};
use crate::rows::{completes, trace_of, Cells, Rows};
use crate::trace::Trace;
use crate::FixedData;

verus! {

/// The row after `row` on the cycle.
pub open spec fn successor(degree: int, row: int) -> int {
    if row + 1 >= degree {
        0
    } else {
        row + 1
    }
}

/// The row that a reference made on `row` reads.
pub open spec fn target_row(degree: int, row: int, next: bool) -> int {
    if next {
        successor(degree, row)
    } else {
        row
    }
}

/// Whether the cell that a reference reads on `row` is known. Cells of fixed
/// columns always are.
pub open spec fn reference_known(
    cells: Cells,
    degree: int,
    r: PolynomialReference,
    row: int,
) -> bool {
    match r.poly_id {
        Some(p) => match p.ptype {
            PolynomialType::Committed => cells[p.id as int][target_row(degree, row, r.next)] is Some,
            PolynomialType::Constant => true,
            PolynomialType::Intermediate => false,
        },
        None => false,
    }
}

/// Whether every cell that the expression reads on `row` is known.
pub open spec fn refs_known(cells: Cells, degree: int, e: Expression, row: int) -> bool
    decreases e,
{
    match e {
        Expression::Number(_) => true,
        Expression::PolynomialReference(r) => reference_known(cells, degree, r, row),
        Expression::BinaryOperation(l, _, r) => refs_known(cells, degree, *l, row) && refs_known(
            cells,
            degree,
            *r,
            row,
        ),
        Expression::UnaryOperation(_, x) => refs_known(cells, degree, *x, row),
    }
}

/// Where every cell that an expression reads is known, each trace that
/// completes the cells gives the expression the same value.
pub proof fn lemma_known_value(fixed: &FixedData, cells: Cells, t: Trace, e: Expression, row: int)
    requires
        fixed.wf(),
        crate::rows::cells_wf(fixed, cells),
        completes(t, fixed, cells),
        e.wf(fixed.fixed_count(), fixed.witness_count()),
        0 <= row < fixed.degree,
        refs_known(cells, fixed.degree as int, e, row),
    ensures
        t.eval(e, row) == trace_of(fixed, cells).eval(e, row),
{
    crate::rows::lemma_trace_of_wf(fixed, cells);
    lemma_known_agrees(fixed, cells, t, e, row);
    t.lemma_eval_agrees(trace_of(fixed, cells), e, row);
}

proof fn lemma_known_agrees(fixed: &FixedData, cells: Cells, t: Trace, e: Expression, row: int)
    requires
        fixed.wf(),
        crate::rows::cells_wf(fixed, cells),
        completes(t, fixed, cells),
        e.wf(fixed.fixed_count(), fixed.witness_count()),
        0 <= row < fixed.degree,
        refs_known(cells, fixed.degree as int, e, row),
    ensures
        t.agrees_on(trace_of(fixed, cells), e, row),
    decreases e,
{
    match e {
        Expression::Number(n) => {},
        Expression::PolynomialReference(r) => {
            let p = r.poly_id->0;
            let target = target_row(fixed.degree as int, row, r.next);
            assert(target == t.target_row(row, r.next));
            assert(target == trace_of(fixed, cells).target_row(row, r.next));
            if p.ptype == PolynomialType::Committed {
                assert(cells[p.id as int].len() == fixed.degree);
                assert(cells[p.id as int][target] is Some);
            }
        },
        Expression::BinaryOperation(l, op, r) => {
            lemma_known_agrees(fixed, cells, t, *l, row);
            lemma_known_agrees(fixed, cells, t, *r, row);
        },
        Expression::UnaryOperation(op, x) => {
            lemma_known_agrees(fixed, cells, t, *x, row);
        },
    }
}

/// An expression that reads an open cell mentions a column that is not
/// fully known.
pub proof fn lemma_open_reference(fixed: &FixedData, cells: Cells, e: Expression, row: int)
    requires
        fixed.wf(),
        crate::rows::cells_wf(fixed, cells),
        e.wf(fixed.fixed_count(), fixed.witness_count()),
        0 <= row < fixed.degree,
        !refs_known(cells, fixed.degree as int, e, row),
    ensures
        exists|c: int|
            0 <= c < fixed.witness_count() && #[trigger] e.mentions(c) && !crate::rows::column_known(
                cells,
                c,
            ),
    decreases e,
{
    match e {
        Expression::Number(n) => {},
        Expression::PolynomialReference(r) => {
            let p = r.poly_id->0;
            let c = p.id as int;
            let target = target_row(fixed.degree as int, row, r.next);
            assert(cells[c].len() == fixed.degree);
            assert(cells[c][target] is None);
            assert(e.mentions(c) && !crate::rows::column_known(cells, c));
        },
        Expression::BinaryOperation(l, op, r) => {
            if !refs_known(cells, fixed.degree as int, *l, row) {
                lemma_open_reference(fixed, cells, *l, row);
                let c = choose|c: int|
                    0 <= c < fixed.witness_count() && #[trigger] l.mentions(c)
                        && !crate::rows::column_known(cells, c);
                assert(e.mentions(c));
            } else {
                lemma_open_reference(fixed, cells, *r, row);
                let c = choose|c: int|
                    0 <= c < fixed.witness_count() && #[trigger] r.mentions(c)
                        && !crate::rows::column_known(cells, c);
                assert(e.mentions(c));
            }
        },
        Expression::UnaryOperation(op, x) => {
            lemma_open_reference(fixed, cells, *x, row);
            let c = choose|c: int|
                0 <= c < fixed.witness_count() && #[trigger] x.mentions(c)
                    && !crate::rows::column_known(cells, c);
            assert(e.mentions(c));
        },
    }
}

/// The row after `row` on the cycle.
pub fn next_row(fixed: &FixedData, row: usize) -> (r: usize)
    requires
        fixed.wf(),
        row < fixed.degree,
    ensures
        r == successor(fixed.degree as int, row as int),
        r < fixed.degree,
{
    if row as u64 + 1 >= fixed.degree {
        0
    } else {
        row + 1
    }
}

/// The value that a reference made on `row` reads, if it is known.
pub fn read_reference(fixed: &FixedData, rows: &Rows, r: &PolynomialReference, row: usize) -> (v:
    Option<u64>)
    requires
        fixed.wf(),
        rows.wf(fixed),
        r.wf(fixed.fixed_count(), fixed.witness_count()),
        row < fixed.degree,
    ensures
        v is Some <==> reference_known(rows@, fixed.degree as int, *r, row as int),
        match v {
            Some(x) => x == trace_of(fixed, rows@).reference(*r, row as int) && x
                < fixed.field.modulus,
            None => true,
        },
{
    let target: usize = if r.next {
        next_row(fixed, row)
    } else {
        row
    };
    match r.poly_id {
        Some(p) => match p.ptype {
            PolynomialType::Committed => {
                let width: usize = fixed.witness_cols.len();
                assert(p.id < width);
                let v: Option<u64> = rows.get(fixed, p.id as usize, target);
                proof {
                    assert(rows@[p.id as int].len() == fixed.degree);
                }
                v
            },
            PolynomialType::Constant => {
                let column = fixed.fixed_cols.get(&p);
                proof {
                    assert(fixed.fixed_cols.values@[p.id as int].values@.len() == fixed.degree);
                }
                Some(column.values[target])
            },
            PolynomialType::Intermediate => None,
        },
        None => None,
    }
}

/// The value of an expression on a row, if every cell that it reads is known.
pub fn evaluate(fixed: &FixedData, rows: &Rows, e: &Expression, row: usize) -> (v: Option<u64>)
    requires
        fixed.wf(),
        rows.wf(fixed),
        e.wf(fixed.fixed_count(), fixed.witness_count()),
        row < fixed.degree,
    ensures
        v is Some <==> refs_known(rows@, fixed.degree as int, *e, row as int),
        match v {
            Some(x) => x == trace_of(fixed, rows@).eval(*e, row as int) && x < fixed.field.modulus,
            None => true,
        },
    decreases e,
{
    match e {
        Expression::Number(n) => Some(fixed.field.reduce(*n)),
        Expression::PolynomialReference(r) => read_reference(fixed, rows, r, row),
        Expression::BinaryOperation(l, op, r) => {
            let a: u64 = match evaluate(fixed, rows, l, row) {
                Some(a) => a,
                None => {
                    return None;
                },
            };
            let b: u64 = match evaluate(fixed, rows, r, row) {
                Some(b) => b,
                None => {
                    return None;
                },
            };
            match op {
                BinaryOperator::Add => Some(fixed.field.add(a, b)),
                BinaryOperator::Sub => Some(fixed.field.sub(a, b)),
                BinaryOperator::Mul => Some(fixed.field.mul(a, b)),
            }
        },
        Expression::UnaryOperation(op, x) => {
            let a: u64 = match evaluate(fixed, rows, x, row) {
                Some(a) => a,
                None => {
                    return None;
                },
            };
            match op {
                UnaryOperator::Plus => Some(a),
                UnaryOperator::Minus => Some(fixed.field.neg(a)),
            }
        },
    }
}

/// The affine form of an expression on a row: numbers and known cells are
/// constants, an open cell is a term of its own, sums and differences are
/// taken term by term, and a product is affine where one factor is a
/// constant. `None` where both factors of a product have open cells.
pub open spec fn affine_form(fixed: &FixedData, cells: Cells, e: Expression, row: int) -> Option<
    AffineForm,
>
    decreases e,
{
    let m = fixed.field.modulus as int;
    let width = fixed.witness_count() as nat;
    match e {
        Expression::Number(n) => Some(AffineForm::constant(width, (n as int) % m)),
        Expression::PolynomialReference(r) => if reference_known(
            cells,
            fixed.degree as int,
            r,
            row,
        ) {
            Some(AffineForm::constant(width, trace_of(fixed, cells).reference(r, row)))
        } else {
            match r.poly_id {
                Some(p) => Some(AffineForm::unit(width, p.id as int, r.next)),
                None => None,
            }
        },
        Expression::BinaryOperation(l, op, r) => match (
            affine_form(fixed, cells, *l, row),
            affine_form(fixed, cells, *r, row),
        ) {
            (Some(a), Some(b)) => match op {
                BinaryOperator::Add => Some(a.plus(b, m)),
                BinaryOperator::Sub => Some(a.minus(b, m)),
                BinaryOperator::Mul => if a.is_constant() {
                    Some(b.scaled(a.offset, m))
                } else if b.is_constant() {
                    Some(a.scaled(b.offset, m))
                } else {
                    None
                },
            },
            _ => None,
        },
        Expression::UnaryOperation(op, x) => match affine_form(fixed, cells, *x, row) {
            Some(a) => match op {
                UnaryOperator::Plus => Some(a),
                UnaryOperator::Minus => Some(AffineForm::constant(width, 0).minus(a, m)),
            },
            None => None,
        },
    }
}

/// The values of the witness columns on a row.
pub open spec fn row_values(t: Trace, row: int) -> Seq<int> {
    Seq::new(t.witness.len(), |c: int| t.witness[c][row] as int)
}

/// The value that a trace gives an affine form on a row.
pub open spec fn form_value(form: AffineForm, t: Trace, row: int) -> int {
    form.value(row_values(t, row), row_values(t, t.successor(row)), t.modulus)
}

/// The affine algebra is sound: in every trace that gives the known cells
/// their values, the affine form of an expression has the value of the expression.
pub proof fn lemma_affine_sound(fixed: &FixedData, cells: Cells, t: Trace, e: Expression, row: int)
    requires
        fixed.wf(),
        crate::rows::cells_wf(fixed, cells),
        completes(t, fixed, cells),
        e.wf(fixed.fixed_count(), fixed.witness_count()),
        0 <= row < fixed.degree,
        affine_form(fixed, cells, e, row) is Some,
    ensures
        affine_form(fixed, cells, e, row)->0.wf(fixed.witness_count(), fixed.field.modulus as int),
        form_value(affine_form(fixed, cells, e, row)->0, t, row) == t.eval(e, row),
    decreases e,
{
    let m = fixed.field.modulus as int;
    let width = fixed.witness_count() as nat;
    let here = row_values(t, row);
    let there = row_values(t, t.successor(row));
    let form = affine_form(fixed, cells, e, row)->0;
    crate::rows::lemma_trace_of_wf(fixed, cells);
    let zero = trace_of(fixed, cells);
    match e {
        Expression::Number(n) => {
            vstd::arithmetic::div_mod::lemma_mod_bound(n as int, m);
            vstd::arithmetic::div_mod::lemma_mod_twice(n as int, m);
            lemma_leaves_wf(width, (n as int) % m, 0, false, m);
            form.lemma_value_constant(here, there, m);
        },
        Expression::PolynomialReference(r) => {
            if reference_known(cells, fixed.degree as int, r, row) {
                lemma_known_value(fixed, cells, t, e, row);
                zero.lemma_eval_in_field(e, row);
                let v = zero.reference(r, row);
                lemma_leaves_wf(width, v, 0, false, m);
                form.lemma_value_constant(here, there, m);
                vstd::arithmetic::div_mod::lemma_small_mod(v as nat, m as nat);
            } else {
                let p = r.poly_id->0;
                let c = p.id as int;
                lemma_leaves_wf(width, 0, c, r.next, m);
                AffineForm::lemma_value_unit(width, c, r.next, here, there, m);
                let target = t.target_row(row, r.next);
                let x = t.witness[c][target] as int;
                assert(0 <= target < t.degree);
                assert(t.witness[c].len() == t.degree);
                vstd::arithmetic::div_mod::lemma_small_mod(x as nat, m as nat);
            }
        },
        Expression::BinaryOperation(l, op, r) => {
            lemma_affine_sound(fixed, cells, t, *l, row);
            lemma_affine_sound(fixed, cells, t, *r, row);
            let a = affine_form(fixed, cells, *l, row)->0;
            let b = affine_form(fixed, cells, *r, row)->0;
            lemma_forms_wf(a, b, b.offset, width as int, m);
            lemma_forms_wf(b, a, a.offset, width as int, m);
            match op {
                BinaryOperator::Add => {
                    a.lemma_value_plus(b, here, there, m);
                },
                BinaryOperator::Sub => {
                    a.lemma_value_minus(b, here, there, m);
                },
                BinaryOperator::Mul => {
                    if a.is_constant() {
                        a.lemma_value_constant(here, there, m);
                        vstd::arithmetic::div_mod::lemma_small_mod(a.offset as nat, m as nat);
                        b.lemma_value_scaled(a.offset, here, there, m);
                    } else {
                        b.lemma_value_constant(here, there, m);
                        vstd::arithmetic::div_mod::lemma_small_mod(b.offset as nat, m as nat);
                        a.lemma_value_scaled(b.offset, here, there, m);
                        let x = t.eval(*l, row);
                        let y = t.eval(*r, row);
                        assert(x * y == y * x) by (nonlinear_arith);
                    }
                },
            }
        },
        Expression::UnaryOperation(op, x) => {
            lemma_affine_sound(fixed, cells, t, *x, row);
            let a = affine_form(fixed, cells, *x, row)->0;
            match op {
                UnaryOperator::Plus => {},
                UnaryOperator::Minus => {
                    let z = AffineForm::constant(width, 0);
                    lemma_leaves_wf(width, 0, 0, false, m);
                    lemma_forms_wf(z, a, 0, width as int, m);
                    z.lemma_value_constant(here, there, m);
                    z.lemma_value_minus(a, here, there, m);
                    vstd::arithmetic::div_mod::lemma_small_mod(0, m as nat);
                },
            }
        },
    }
}

/// The affine form of an expression on a row, if it has one.
pub fn evaluate_affine(fixed: &FixedData, rows: &Rows, e: &Expression, row: usize) -> (r: Option<
    AffineExpression,
>)
    requires
        fixed.wf(),
        rows.wf(fixed),
        e.wf(fixed.fixed_count(), fixed.witness_count()),
        row < fixed.degree,
    ensures
        match r {
            Some(a) => affine_form(fixed, rows@, *e, row as int) == Some(a@) && a.wf(
                fixed.witness_count(),
                fixed.field,
            ),
            None => affine_form(fixed, rows@, *e, row as int) is None,
        },
    decreases e,
{
    let width: usize = fixed.witness_cols.len();
    let ghost m = fixed.field.modulus as int;
    match e {
        Expression::Number(n) => {
            let value: u64 = fixed.field.reduce(*n);
            proof {
                lemma_leaves_wf(width as nat, value as int, 0, false, m);
            }
            Some(AffineExpression::constant(width, value))
        },
        Expression::PolynomialReference(r) => {
            match read_reference(fixed, rows, r, row) {
                Some(value) => {
                    proof {
                        lemma_leaves_wf(width as nat, value as int, 0, false, m);
                    }
                    Some(AffineExpression::constant(width, value))
                },
                None => match r.poly_id {
                    Some(p) => {
                        assert(p.id < width);
                        proof {
                            lemma_leaves_wf(width as nat, 0, p.id as int, r.next, m);
                        }
                        Some(AffineExpression::unit(width, p.id as usize, r.next))
                    },
                    None => None,
                },
            }
        },
        Expression::BinaryOperation(l, op, r) => {
            let a: AffineExpression = match evaluate_affine(fixed, rows, l, row) {
                Some(a) => a,
                None => {
                    return None;
                },
            };
            let b: AffineExpression = match evaluate_affine(fixed, rows, r, row) {
                Some(b) => b,
                None => {
                    return None;
                },
            };
            proof {
                lemma_forms_wf(a@, b@, b@.offset, width as int, m);
                lemma_forms_wf(b@, a@, a@.offset, width as int, m);
            }
            match op {
                BinaryOperator::Add => Some(a.add(&b, &fixed.field)),
                BinaryOperator::Sub => Some(a.sub(&b, &fixed.field)),
                BinaryOperator::Mul => {
                    if a.is_constant() {
                        Some(b.scale(a.offset, &fixed.field))
                    } else if b.is_constant() {
                        Some(a.scale(b.offset, &fixed.field))
                    } else {
                        None
                    }
                },
            }
        },
        Expression::UnaryOperation(op, x) => {
            let a: AffineExpression = match evaluate_affine(fixed, rows, x, row) {
                Some(a) => a,
                None => {
                    return None;
                },
            };
            match op {
                UnaryOperator::Plus => Some(a),
                UnaryOperator::Minus => {
                    let zero: AffineExpression = AffineExpression::constant(width, 0);
                    proof {
                        lemma_leaves_wf(width as nat, 0, 0, false, m);
                        lemma_forms_wf(zero@, a@, 0, width as int, m);
                    }
                    Some(zero.sub(&a, &fixed.field))
                },
            }
        },
    }
}

} // verus!
