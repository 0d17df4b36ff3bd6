//! What it means for column values to satisfy the identities.
//!
//! A trace gives every fixed and witness column a value on each of `degree`
//! rows. The rows form a cycle: the row after the last one is the first.

use vstd::prelude::*;
use vstd::arithmetic::div_mod::*;
use crate::analyzed::{
    BinaryOperator,
    Expression,
    Identity,
    PolyID,
    PolynomialReference,
    PolynomialType,
    SelectedExpressions,
    UnaryOperator,
};

verus! {

pub struct Trace {
    pub modulus: int,
    pub degree: int,
    /// The fixed columns, `fixed[column][row]`.
    pub fixed: Seq<Seq<u64>>,
    /// The witness columns, `witness[column][row]`.
    pub witness: Seq<Seq<u64>>,
}

impl Trace {
    /// Every column has `degree` rows and holds field elements only.
    pub open spec fn wf(self) -> bool {
        &&& self.modulus >= 2
        &&& self.degree >= 1
        &&& forall|c: int|
            0 <= c < self.fixed.len() ==> (#[trigger] self.fixed[c]).len() == self.degree
        &&& forall|c: int|
            0 <= c < self.witness.len() ==> (#[trigger] self.witness[c]).len() == self.degree
        &&& forall|c: int, r: int|
            0 <= c < self.fixed.len() && 0 <= r < self.degree ==> (#[trigger] self.fixed[c][r])
                < self.modulus
        &&& forall|c: int, r: int|
            0 <= c < self.witness.len() && 0 <= r < self.degree ==> (
            #[trigger] self.witness[c][r]) < self.modulus
    }

    /// The row after `row` on the cycle.
    pub open spec fn successor(self, row: int) -> int {
        if row + 1 >= self.degree {
            0
        } else {
            row + 1
        }
    }

    /// The row that a reference made on `row` reads.
    pub open spec fn target_row(self, row: int, next: bool) -> int {
        if next {
            self.successor(row)
        } else {
            row
        }
    }

    pub open spec fn cell(self, poly: PolyID, row: int) -> int {
        match poly.ptype {
            PolynomialType::Committed => self.witness[poly.id as int][row] as int,
            PolynomialType::Constant => self.fixed[poly.id as int][row] as int,
            PolynomialType::Intermediate => 0,
        }
    }

    /// The value that a reference made on `row` reads.
    pub open spec fn reference(self, r: PolynomialReference, row: int) -> int {
        match r.poly_id {
            Some(p) => self.cell(p, self.target_row(row, r.next)),
            None => 0,
        }
    }

    /// The value of an expression on a row, as a field element.
    pub open spec fn eval(self, e: Expression, row: int) -> int
        decreases e,
    {
        match e {
            Expression::Number(n) => (n as int) % self.modulus,
            Expression::PolynomialReference(r) => self.reference(r, row),
            Expression::BinaryOperation(l, op, r) => match op {
                BinaryOperator::Add => (self.eval(*l, row) + self.eval(*r, row)) % self.modulus,
                BinaryOperator::Sub => (self.eval(*l, row) - self.eval(*r, row)) % self.modulus,
                BinaryOperator::Mul => (self.eval(*l, row) * self.eval(*r, row)) % self.modulus,
            },
            Expression::UnaryOperation(op, x) => match op {
                UnaryOperator::Plus => self.eval(*x, row),
                UnaryOperator::Minus => (-self.eval(*x, row)) % self.modulus,
            },
        }
    }

    /// Whether a row takes part in a lookup: it does unless the selector is zero there.
    pub open spec fn selected(self, s: SelectedExpressions, row: int) -> bool {
        match s.selector {
            Some(e) => self.eval(e, row) != 0,
            None => true,
        }
    }

    /// The left tuple on `left_row` equals the right tuple on `right_row`.
    pub open spec fn tuples_match(
        self,
        left: Seq<Expression>,
        left_row: int,
        right: Seq<Expression>,
        right_row: int,
    ) -> bool {
        &&& left.len() == right.len()
        &&& forall|k: int|
            0 <= k < left.len() ==> self.eval(#[trigger] left[k], left_row) == self.eval(
                right[k],
                right_row,
            )
    }

    /// Whether `right_row` is a selected row whose right tuple is the left tuple of `row`.
    pub open spec fn is_match(
        self,
        left: SelectedExpressions,
        right: SelectedExpressions,
        row: int,
        right_row: int,
    ) -> bool {
        &&& 0 <= right_row < self.degree
        &&& self.selected(right, right_row)
        &&& self.tuples_match(left.expressions@, row, right.expressions@, right_row)
    }

    /// Whether the identity holds on one row.
    pub open spec fn holds_at(self, identity: Identity, row: int) -> bool {
        match identity {
            Identity::Polynomial(e) => self.eval(e, row) == 0,
            Identity::Plookup(left, right) => self.selected(left, row) ==> exists|right_row: int|
                #[trigger] self.is_match(left, right, row, right_row),
        }
    }

    /// Whether the identity holds on every row.
    pub open spec fn holds(self, identity: Identity) -> bool {
        forall|row: int| 0 <= row < self.degree ==> #[trigger] self.holds_at(identity, row)
    }

    /// Whether the trace is a solution of all the identities.
    pub open spec fn satisfies(self, identities: Seq<Identity>) -> bool {
        forall|i: int| 0 <= i < identities.len() ==> self.holds(#[trigger] identities[i])
    }

    /// Whether two traces agree on every cell that the expression reads on `row`.
    pub open spec fn agrees_on(self, other: Trace, e: Expression, row: int) -> bool
        decreases e,
    {
        match e {
            Expression::Number(_) => true,
            Expression::PolynomialReference(r) => self.reference(r, row) == other.reference(
                r,
                row,
            ),
            Expression::BinaryOperation(l, _, r) => self.agrees_on(other, *l, row)
                && self.agrees_on(other, *r, row),
            Expression::UnaryOperation(_, x) => self.agrees_on(other, *x, row),
        }
    }

    /// Whether two traces agree on a witness column.
    pub open spec fn same_column(self, other: Trace, column: int) -> bool {
        self.witness[column] == other.witness[column]
    }

    /// Two traces have the same shape and the same fixed columns.
    pub open spec fn same_setting(self, other: Trace) -> bool {
        &&& self.modulus == other.modulus
        &&& self.degree == other.degree
        &&& self.fixed == other.fixed
        &&& self.witness.len() == other.witness.len()
    }

    /// A well-formed expression evaluates to a field element.
    pub proof fn lemma_eval_in_field(self, e: Expression, row: int)
        requires
            self.wf(),
            e.wf(self.fixed.len() as int, self.witness.len() as int),
            0 <= row < self.degree,
        ensures
            0 <= self.eval(e, row) < self.modulus,
        decreases e,
    {
        match e {
            Expression::Number(n) => {
                lemma_mod_bound(n as int, self.modulus);
            },
            Expression::PolynomialReference(r) => {},
            Expression::BinaryOperation(l, op, r) => {
                let a = self.eval(*l, row);
                let b = self.eval(*r, row);
                lemma_mod_bound(a + b, self.modulus);
                lemma_mod_bound(a - b, self.modulus);
                lemma_mod_bound(a * b, self.modulus);
            },
            Expression::UnaryOperation(op, x) => {
                self.lemma_eval_in_field(*x, row);
                lemma_mod_bound(-self.eval(*x, row), self.modulus);
            },
        }
    }

    /// The value of an expression depends only on the cells that it reads.
    pub proof fn lemma_eval_agrees(self, other: Trace, e: Expression, row: int)
        requires
            self.modulus == other.modulus,
            self.agrees_on(other, e, row),
        ensures
            self.eval(e, row) == other.eval(e, row),
        decreases e,
    {
        match e {
            Expression::Number(n) => {},
            Expression::PolynomialReference(r) => {},
            Expression::BinaryOperation(l, op, r) => {
                self.lemma_eval_agrees(other, *l, row);
                self.lemma_eval_agrees(other, *r, row);
            },
            Expression::UnaryOperation(op, x) => {
                self.lemma_eval_agrees(other, *x, row);
            },
        }
    }

    /// Two traces that agree on every witness column that an expression
    /// mentions agree on every cell that it reads.
    pub proof fn lemma_agrees_on_columns(self, other: Trace, e: Expression, row: int)
        requires
            self.same_setting(other),
            e.wf(self.fixed.len() as int, self.witness.len() as int),
            forall|c: int|
                0 <= c < self.witness.len() && e.mentions(c) ==> #[trigger] self.same_column(
                    other,
                    c,
                ),
        ensures
            self.agrees_on(other, e, row),
        decreases e,
    {
        match e {
            Expression::Number(n) => {},
            Expression::PolynomialReference(r) => {
                let p = r.poly_id->0;
                if p.ptype == PolynomialType::Committed {
                    assert(r.is_witness(p.id as int));
                    assert(self.same_column(other, p.id as int));
                }
            },
            Expression::BinaryOperation(l, op, r) => {
                self.lemma_agrees_on_columns(other, *l, row);
                self.lemma_agrees_on_columns(other, *r, row);
            },
            Expression::UnaryOperation(op, x) => {
                self.lemma_agrees_on_columns(other, *x, row);
            },
        }
    }

    /// An identity that holds in one trace holds in every trace that agrees
    /// with it on the witness columns that the identity mentions.
    pub proof fn lemma_holds_on_columns(self, other: Trace, identity: Identity, row: int)
        requires
            self.same_setting(other),
            identity.wf(self.fixed.len() as int, self.witness.len() as int),
            forall|c: int|
                0 <= c < self.witness.len() && identity.mentions(c) ==> #[trigger] self.same_column(
                    other,
                    c,
                ),
            self.holds_at(identity, row),
        ensures
            other.holds_at(identity, row),
    {
        match identity {
            Identity::Polynomial(e) => {
                self.lemma_agrees_on_columns(other, e, row);
                self.lemma_eval_agrees(other, e, row);
            },
            Identity::Plookup(left, right) => {
                self.lemma_selected_on_columns(other, left, row);
                if other.selected(left, row) {
                    let right_row = choose|right_row: int|
                        #[trigger] self.is_match(left, right, row, right_row);
                    self.lemma_selected_on_columns(other, right, right_row);
                    assert forall|k: int| 0 <= k < left.expressions@.len() implies other.eval(
                        #[trigger] left.expressions@[k],
                        row,
                    ) == other.eval(right.expressions@[k], right_row) by {
                        self.lemma_tuple_on_columns(other, left, k, row);
                        self.lemma_tuple_on_columns(other, right, k, right_row);
                    }
                    assert(other.is_match(left, right, row, right_row));
                }
            },
        }
    }

    proof fn lemma_selected_on_columns(self, other: Trace, s: SelectedExpressions, row: int)
        requires
            self.same_setting(other),
            s.wf(self.fixed.len() as int, self.witness.len() as int),
            forall|c: int|
                0 <= c < self.witness.len() && s.mentions(c) ==> #[trigger] self.same_column(
                    other,
                    c,
                ),
        ensures
            self.selected(s, row) == other.selected(s, row),
    {
        match s.selector {
            Some(e) => {
                self.lemma_agrees_on_columns(other, e, row);
                self.lemma_eval_agrees(other, e, row);
            },
            None => {},
        }
    }

    proof fn lemma_tuple_on_columns(self, other: Trace, s: SelectedExpressions, k: int, row: int)
        requires
            self.same_setting(other),
            s.wf(self.fixed.len() as int, self.witness.len() as int),
            0 <= k < s.expressions@.len(),
            forall|c: int|
                0 <= c < self.witness.len() && s.mentions(c) ==> #[trigger] self.same_column(
                    other,
                    c,
                ),
        ensures
            self.eval(s.expressions@[k], row) == other.eval(s.expressions@[k], row),
    {
        let e = s.expressions@[k];
        assert forall|c: int| 0 <= c < self.witness.len() && e.mentions(c) implies #[trigger] self.same_column(
            other,
            c,
        ) by {
            assert(s.mentions(c));
        }
        self.lemma_agrees_on_columns(other, e, row);
        self.lemma_eval_agrees(other, e, row);
    }
}

} // verus!
