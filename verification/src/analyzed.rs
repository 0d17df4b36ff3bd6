//! The analysed constraint system: column declarations and identities.
//!
//! Intermediate polynomials are expected to be inlined already, so an
//! expression refers to committed (witness) and constant (fixed) columns only.

use vstd::prelude::*;
use crate::field::Field;

verus! {

#[derive(Clone, Copy, Debug, PartialEq, Eq, Structural)]
pub enum PolynomialType {
    Committed,
    Constant,
    Intermediate,
}

/// Identifies a column: its position among the columns of its kind.
#[derive(Clone, Copy, Debug, PartialEq, Eq, Structural)]
pub struct PolyID {
    pub id: u64,
    pub ptype: PolynomialType,
}

/// A reference to a column on the current or, with `next`, on the following row.
#[derive(Debug)]
pub struct PolynomialReference {
    pub name: String,
    pub poly_id: Option<PolyID>,
    pub index: Option<u64>,
    pub next: bool,
}

#[derive(Clone, Copy, Debug, PartialEq, Eq, Structural)]
pub enum BinaryOperator {
    Add,
    Sub,
    Mul,
}

#[derive(Clone, Copy, Debug, PartialEq, Eq, Structural)]
pub enum UnaryOperator {
    Plus,
    Minus,
}

/// An algebraic expression over the columns.
#[derive(Debug)]
pub enum Expression {
    Number(u64),
    PolynomialReference(PolynomialReference),
    BinaryOperation(Box<Expression>, BinaryOperator, Box<Expression>),
    UnaryOperation(UnaryOperator, Box<Expression>),
}

/// A tuple of expressions, on the rows where the selector (if any) is not zero.
#[derive(Debug)]
pub struct SelectedExpressions {
    pub selector: Option<Expression>,
    pub expressions: Vec<Expression>,
}

#[derive(Debug)]
pub enum Identity {
    /// The expression is zero on every row.
    Polynomial(Expression),
    /// On every selected row, the left tuple occurs among the selected right tuples.
    Plookup(SelectedExpressions, SelectedExpressions),
}

/// One part of a query: the text handed to the query callback is the
/// rendering of the parts, separated by `", "`.
#[derive(Debug)]
pub enum QueryItem {
    /// A string, rendered between double quotes.
    Text(String),
    /// The index of the row that is being solved, in decimal.
    RowIndex,
    /// The value of an expression on that row, in decimal.
    Value(Expression),
}

#[derive(Debug)]
pub struct QueryExpression {
    pub items: Vec<QueryItem>,
}

/// What is declared to define a column's values.
#[derive(Debug)]
pub enum FunctionValueDefinition {
    Mapping(Expression),
    Query(QueryExpression),
}

/// The declaration of a column.
#[derive(Debug)]
pub struct Polynomial {
    pub id: u64,
    pub absolute_name: String,
    /// The number of elements where the declaration is an array.
    pub length: Option<u64>,
}

/// The analysed system over a field.
pub struct Analyzed {
    pub field: Field,
    /// The committed columns in the order of their declaration.
    pub committed: Vec<(Polynomial, Option<FunctionValueDefinition>)>,
    pub identities: Vec<Identity>,
}

impl PolynomialReference {
    /// The reference is resolved to a column that exists, and is no array element.
    pub open spec fn wf(self, fixed_count: int, witness_count: int) -> bool {
        &&& self.index is None
        &&& match self.poly_id {
            Some(p) => match p.ptype {
                PolynomialType::Committed => p.id < witness_count,
                PolynomialType::Constant => p.id < fixed_count,
                PolynomialType::Intermediate => false,
            },
            None => false,
        }
    }

    pub fn is_wf(&self, fixed_count: usize, witness_count: usize) -> (r: bool)
        ensures
            r == self.wf(fixed_count as int, witness_count as int),
    {
        if self.index.is_some() {
            return false;
        }
        match self.poly_id {
            Some(p) => match p.ptype {
                PolynomialType::Committed => p.id < witness_count as u64,
                PolynomialType::Constant => p.id < fixed_count as u64,
                PolynomialType::Intermediate => false,
            },
            None => false,
        }
    }

    /// Whether the reference is to the given witness column.
    pub open spec fn is_witness(self, column: int) -> bool {
        self.poly_id == Some(PolyID { id: column as u64, ptype: PolynomialType::Committed })
            && 0 <= column <= u64::MAX
    }
}

impl Expression {
    /// Every reference in the expression is well-formed.
    pub open spec fn wf(self, fixed_count: int, witness_count: int) -> bool
        decreases self,
    {
        match self {
            Expression::Number(_) => true,
            Expression::PolynomialReference(r) => r.wf(fixed_count, witness_count),
            Expression::BinaryOperation(l, _, r) => l.wf(fixed_count, witness_count) && r.wf(
                fixed_count,
                witness_count,
            ),
            Expression::UnaryOperation(_, x) => x.wf(fixed_count, witness_count),
        }
    }

    pub fn is_wf(&self, fixed_count: usize, witness_count: usize) -> (r: bool)
        ensures
            r == self.wf(fixed_count as int, witness_count as int),
        decreases self,
    {
        match self {
            Expression::Number(_) => true,
            Expression::PolynomialReference(r) => r.is_wf(fixed_count, witness_count),
            Expression::BinaryOperation(l, _, r) => l.is_wf(fixed_count, witness_count) && r.is_wf(
                fixed_count,
                witness_count,
            ),
            Expression::UnaryOperation(_, x) => x.is_wf(fixed_count, witness_count),
        }
    }

    /// Whether the expression mentions the given witness column.
    pub open spec fn mentions(self, column: int) -> bool
        decreases self,
    {
        match self {
            Expression::Number(_) => false,
            Expression::PolynomialReference(r) => r.is_witness(column),
            Expression::BinaryOperation(l, _, r) => l.mentions(column) || r.mentions(column),
            Expression::UnaryOperation(_, x) => x.mentions(column),
        }
    }
}

/// Every expression of the sequence is well-formed.
pub open spec fn expressions_wf(s: Seq<Expression>, fixed_count: int, witness_count: int) -> bool {
    forall|k: int| 0 <= k < s.len() ==> (#[trigger] s[k]).wf(fixed_count, witness_count)
}

/// Whether some expression of the sequence mentions the given witness column.
pub open spec fn expressions_mention(s: Seq<Expression>, column: int) -> bool {
    exists|k: int| 0 <= k < s.len() && (#[trigger] s[k]).mentions(column)
}

impl SelectedExpressions {
    pub open spec fn wf(self, fixed_count: int, witness_count: int) -> bool {
        &&& match self.selector {
            Some(e) => e.wf(fixed_count, witness_count),
            None => true,
        }
        &&& expressions_wf(self.expressions@, fixed_count, witness_count)
    }

    pub fn is_wf(&self, fixed_count: usize, witness_count: usize) -> (r: bool)
        ensures
            r == self.wf(fixed_count as int, witness_count as int),
    {
        let selector_ok: bool = match &self.selector {
            Some(e) => e.is_wf(fixed_count, witness_count),
            None => true,
        };
        if !selector_ok {
            return false;
        }
        let mut k: usize = 0;
        while k < self.expressions.len()
            invariant
                k <= self.expressions.len(),
                forall|j: int|
                    0 <= j < k ==> (#[trigger] self.expressions@[j]).wf(
                        fixed_count as int,
                        witness_count as int,
                    ),
            decreases self.expressions.len() - k,
        {
            if !self.expressions[k].is_wf(fixed_count, witness_count) {
                return false;
            }
            k += 1;
        }
        true
    }

    /// Whether the selector or one of the expressions mentions the witness column.
    pub open spec fn mentions(self, column: int) -> bool {
        ||| match self.selector {
            Some(e) => e.mentions(column),
            None => false,
        }
        ||| expressions_mention(self.expressions@, column)
    }
}

impl Identity {
    /// All references are well-formed and, in a lookup, both tuples have the
    /// same number of expressions.
    pub open spec fn wf(self, fixed_count: int, witness_count: int) -> bool {
        match self {
            Identity::Polynomial(e) => e.wf(fixed_count, witness_count),
            Identity::Plookup(left, right) => {
                &&& left.wf(fixed_count, witness_count)
                &&& right.wf(fixed_count, witness_count)
                &&& left.expressions@.len() == right.expressions@.len()
            },
        }
    }

    pub fn is_wf(&self, fixed_count: usize, witness_count: usize) -> (r: bool)
        ensures
            r == self.wf(fixed_count as int, witness_count as int),
    {
        match self {
            Identity::Polynomial(e) => e.is_wf(fixed_count, witness_count),
            Identity::Plookup(left, right) => {
                left.is_wf(fixed_count, witness_count) && right.is_wf(fixed_count, witness_count)
                    && left.expressions.len() == right.expressions.len()
            },
        }
    }

    /// Whether the identity mentions the given witness column on either side.
    pub open spec fn mentions(self, column: int) -> bool {
        match self {
            Identity::Polynomial(e) => e.mentions(column),
            Identity::Plookup(left, right) => left.mentions(column) || right.mentions(column),
        }
    }
}

/// Every identity of the sequence is well-formed.
pub open spec fn identities_wf(s: Seq<Identity>, fixed_count: int, witness_count: int) -> bool {
    forall|i: int| 0 <= i < s.len() ==> (#[trigger] s[i]).wf(fixed_count, witness_count)
}

impl QueryExpression {
    /// Every expression whose value the query asks for is well-formed.
    pub open spec fn wf(self, fixed_count: int, witness_count: int) -> bool {
        forall|k: int|
            0 <= k < self.items@.len() ==> match #[trigger] self.items@[k] {
                QueryItem::Value(e) => e.wf(fixed_count, witness_count),
                _ => true,
            }
    }

    pub fn is_wf(&self, fixed_count: usize, witness_count: usize) -> (r: bool)
        ensures
            r == self.wf(fixed_count as int, witness_count as int),
    {
        let mut k: usize = 0;
        while k < self.items.len()
            invariant
                k <= self.items.len(),
                forall|j: int|
                    0 <= j < k ==> match #[trigger] self.items@[j] {
                        QueryItem::Value(e) => e.wf(fixed_count as int, witness_count as int),
                        _ => true,
                    },
            decreases self.items.len() - k,
        {
            let ok: bool = match &self.items[k] {
                QueryItem::Value(e) => e.is_wf(fixed_count, witness_count),
                _ => true,
            };
            if !ok {
                return false;
            }
            k += 1;
        }
        true
    }
}

impl Analyzed {
    /// The committed columns with what defines them, in the order of declaration.
    pub fn committed_polys_in_source_order(&self) -> (r: &Vec<
        (Polynomial, Option<FunctionValueDefinition>),
    >)
        ensures
            r == &self.committed,
    {
        &self.committed
    }

    /// The index of the first identity that is not well-formed, if there is one.
    pub fn first_malformed_identity(&self, fixed_count: usize, witness_count: usize) -> (r: Option<
        usize,
    >)
        ensures
            match r {
                Some(i) => {
                    &&& i < self.identities@.len()
                    &&& !self.identities@[i as int].wf(fixed_count as int, witness_count as int)
                    &&& identities_wf(
                        self.identities@.take(i as int),
                        fixed_count as int,
                        witness_count as int,
                    )
                },
                None => identities_wf(self.identities@, fixed_count as int, witness_count as int),
            },
    {
        let mut i: usize = 0;
        while i < self.identities.len()
            invariant
                i <= self.identities.len(),
                identities_wf(
                    self.identities@.take(i as int),
                    fixed_count as int,
                    witness_count as int,
                ),
            decreases self.identities.len() - i,
        {
            if !self.identities[i].is_wf(fixed_count, witness_count) {
                return Some(i);
            }
            proof {
                let s = self.identities@.take(i as int + 1);
                assert forall|j: int| 0 <= j < s.len() implies (#[trigger] s[j]).wf(
                    fixed_count as int,
                    witness_count as int,
                ) by {
                    if j < i {
                        assert(s[j] == self.identities@.take(i as int)[j]);
                    }
                }
            }
            i += 1;
        }
        proof {
            assert(self.identities@.take(i as int) == self.identities@);
        }
        None
    }
}

} // verus!
