//! Witness generation for systems of polynomial identities over a cyclic trace.
//!
//! Given the fixed columns of a trace and the identities that relate the
//! columns on each row and the row after it, the library finds values for the
//! witness columns. Values that the identities do not determine are asked from
//! a query callback, or supplied up front.
//!
//! The steps of [`WitnessGenerator::generate`]:
//!
//! 1. [`FixedData::try_new`] checks the input and collects what stays fixed.
//! 2. [`global_constraints`] finds the columns that identities bound, and
//!    drops the identities that say no more than a bound.
//! 3. [`machines::machine_extractor`] splits the columns and identities into
//!    machines, which are solved on their own, and a rest.
//! 4. [`generator::Generator`] solves each part row by row. On a row it
//!    attempts the identities in passes ([`sequence_iterator`]); an attempt
//!    ([`identity_processor`]) evaluates the identity in the affine algebra
//!    ([`affine_expression`], [`expression_evaluator`]), looks tuples up in
//!    tables ([`machines::fixed_lookup`], [`lookup`]) or tries the values that
//!    bounds leave ([`bounded_solver`]), and cells without a value ask the
//!    query callback ([`query_processor`]).
//! 5. When all rows are done the work is judged ([`verdict`]): only columns
//!    that satisfy every identity on every row are handed out.
//!
//! What it means to satisfy the identities is said in [`trace`]; the
//! contract of `generate` is stated over it.
//!
//! Field elements are the `u64` values below the modulus of the
//! [`field::Field`] that the analysed system names. The trace is a cycle:
//! the row after the last one is the first. Rows are solved in increasing
//! order, and each row must be determined when its turn is over; an identity
//! that reads the next row on the last row is judged against the first row
//! as it was found.

use vstd::prelude::*;
use crate::analyzed::{
    Analyzed,
    FunctionValueDefinition,
    PolyID,
    PolynomialReference,
    PolynomialType,
    QueryExpression,
};
use crate::assembly::{
    agrees,
    all_solved,
    at_start,
    lemma_known_solution,
    lemma_solution_refutes,
    lemma_start_quiet,
    lemma_start_solution,
    failure_located,
    lemma_failure_located,
    lemma_machine_inputs,
    lemma_main_inputs,
    entries_sound,
    entry_of,
    has_entry,
    is_entry,
    lemma_all_solved,
    lemma_machine_refutes,
    lemma_machines_fit,
    lemma_main_refutes,
    lemma_owned_values,
    lemma_solution,
    lemma_supplied_column,
    owned_entry,
    supplies,
};
use crate::column_map::{FixedColumnMap, WitnessColumnMap};
use crate::eval_result::EvalError;
use crate::field::Field;
use crate::generator::{column_pairs, Generator};
use crate::global_constraints::{
    bounded,
    captured,
    captures,
    captures_in,
    determine_global_constraints,
    lemma_bounded,
};
use crate::machines::fixed_lookup::FixedLookup;
use crate::machines::machine_extractor::{machine_ok, split_out_machines, ExtractionOutput};
use crate::machines::Machine;
use crate::rows::{trace_of, zero_filled};
use crate::setup::{
    copy_values,
    declares,
    external_for,
    find_declared,
    find_external,
    find_supplied,
    lemma_supplied_once,
    supplied_once,
    first_outside_field,
    in_field,
    names_distinct,
    ConfigError,
};
use crate::trace::Trace;

pub mod affine_expression;
pub mod analyzed;
pub mod assembly;
pub mod bounded_solver;
pub mod column_map;
pub mod eval_result;
pub mod expression_evaluator;
pub mod field;
pub mod generator;
pub mod global_constraints;
pub mod identity_processor;
pub mod lookup;
pub mod machines;
pub mod query_processor;
pub mod range_constraints;
pub mod rows;
pub mod sequence_iterator;
pub mod setup;
pub mod trace;
pub mod verdict;

verus! {

/// The type of row counts and row indices.
pub type DegreeType = u64;

/// Answers the queries of witness columns: from the text of a query to a
/// value, or to none where it has no answer.
pub trait QueryCallback {
    fn query(&mut self, query: &str) -> Option<u64>;
}

/// Everything [Generator] needs to mutate in order to compute a new row.
pub struct MutableState<'a, Q: QueryCallback> {
    pub fixed_lookup: FixedLookup,
    pub machines: Vec<Machine<'a>>,
    pub query_callback: Q,
}

/// A fixed column: its name and one value per row.
pub struct FixedColumn<'a> {
    pub name: String,
    pub values: &'a Vec<u64>,
}

impl<'a> FixedColumn<'a> {
    pub fn new(name: &str, values: &'a Vec<u64>) -> (r: FixedColumn<'a>)
        ensures
            r.name@ == name@,
            r.values == values,
    {
        let name: String = name.to_owned();
        FixedColumn { name, values }
    }
}

/// The query of a witness column.
#[derive(Debug)]
pub struct Query<'a> {
    /// The query expression
    pub expr: &'a QueryExpression,
    /// The polynomial that is referenced by the query
    pub poly: PolynomialReference,
}

/// A witness column: its name, its query, and the values supplied for it.
#[derive(Debug)]
pub struct WitnessColumn<'a> {
    pub name: String,
    pub query: Option<Query<'a>>,
    pub external_values: Option<Vec<u64>>,
}

impl<'a> WitnessColumn<'a> {
    /// The supplied values as a sequence.
    pub open spec fn external_view(&self) -> Option<Seq<u64>> {
        match self.external_values {
            Some(v) => Some(v@),
            None => None,
        }
    }

    /// The column is the one that `new` makes of these arguments: its query is
    /// the declared one, if a query is what the declaration gives, and refers
    /// to the column itself on the current row.
    pub open spec fn made_of(
        &self,
        id: int,
        name: Seq<char>,
        value: Option<FunctionValueDefinition>,
        external_values: Option<Seq<u64>>,
    ) -> bool {
        &&& self.name@ == name
        &&& self.external_view() == external_values
        &&& match value {
            Some(FunctionValueDefinition::Query(q)) => {
                &&& self.query is Some
                &&& *self.query->0.expr == q
                &&& self.query->0.poly.name@ == name
                &&& self.query->0.poly.poly_id == Some(
                    PolyID { id: id as u64, ptype: PolynomialType::Committed },
                )
                &&& self.query->0.poly.index is None
                &&& !self.query->0.poly.next
            },
            _ => self.query is None,
        }
    }

    pub fn new(
        id: usize,
        name: &str,
        value: &'a Option<FunctionValueDefinition>,
        external_values: Option<Vec<u64>>,
    ) -> (r: WitnessColumn<'a>)
        ensures
            r.made_of(id as int, name@, *value, r.external_view()),
            r.external_values == external_values,
    {
        let query: Option<&'a QueryExpression> = if let Some(FunctionValueDefinition::Query(query)) =
            value {
            Some(query)
        } else {
            None
        };
        let name: String = name.to_owned();
        let query: Option<Query<'a>> = match query {
            Some(callback) => {
                let poly = PolynomialReference {
                    poly_id: Some(PolyID { id: id as u64, ptype: PolynomialType::Committed }),
                    name: name.clone(),
                    next: false,
                    index: None,
                };
                Some(Query { poly, expr: callback })
            },
            None => None,
        };
        WitnessColumn { name, query, external_values }
    }
}

/// Data that is fixed for witness generation.
pub struct FixedData<'a> {
    pub field: Field,
    pub degree: DegreeType,
    pub fixed_cols: FixedColumnMap<FixedColumn<'a>>,
    pub witness_cols: WitnessColumnMap<WitnessColumn<'a>>,
}

/// Every one of the first `n` fixed columns has one field element per row.
pub open spec fn fixed_ok_before(
    analyzed: Analyzed,
    degree: DegreeType,
    fixed_col_values: Seq<(&str, Vec<u64>)>,
    n: int,
) -> bool {
    forall|c: int|
        0 <= c < n && c < fixed_col_values.len() ==> {
            &&& (#[trigger] fixed_col_values[c]).1@.len() == degree
            &&& in_field(fixed_col_values[c].1@, analyzed.field.modulus)
        }
}

/// Every one of the first `n` committed columns is plain, numbered by its
/// position and named unlike the others; its query, if it has one, refers to
/// columns that exist; and the values that are supplied for it, if any, are
/// one field element per row.
pub open spec fn committed_ok_before(
    analyzed: Analyzed,
    degree: DegreeType,
    fixed_col_values: Seq<(&str, Vec<u64>)>,
    external_witness_values: Seq<(&str, Vec<u64>)>,
    n: int,
) -> bool {
    let committed = analyzed.committed@;
    &&& names_distinct(committed, n)
    &&& forall|i: int|
        0 <= i < n && i < committed.len() ==> {
            &&& (#[trigger] committed[i]).0.length is None
            &&& committed[i].0.id == i
            &&& match committed[i].1 {
                Some(FunctionValueDefinition::Query(q)) => q.wf(
                    fixed_col_values.len() as int,
                    committed.len() as int,
                ),
                _ => true,
            }
            &&& match external_for(external_witness_values, committed[i].0.absolute_name@) {
                Some(v) => v.len() == degree && in_field(v, analyzed.field.modulus),
                None => true,
            }
        }
}

/// Among the first `n` entries, values are supplied only under names of
/// committed columns, and under no name twice.
pub open spec fn externals_ok_before(
    analyzed: Analyzed,
    external_witness_values: Seq<(&str, Vec<u64>)>,
    n: int,
) -> bool {
    &&& forall|j: int|
        0 <= j < n && j < external_witness_values.len() ==> declares(
            analyzed.committed@,
            (#[trigger] external_witness_values[j]).0@,
        )
    &&& supplied_once(external_witness_values, n)
}

/// Whether witness generation can start from the given input: the trace has
/// rows, every supplied column has one field element per row, committed
/// columns are plain, numbered in order and named apart, values are supplied
/// only for columns that exist, and identities and queries refer to columns
/// that exist.
pub open spec fn valid_setup(
    analyzed: Analyzed,
    degree: DegreeType,
    fixed_col_values: Seq<(&str, Vec<u64>)>,
    external_witness_values: Seq<(&str, Vec<u64>)>,
) -> bool {
    &&& 1 <= degree <= usize::MAX
    &&& analyzed.field.wf()
    &&& fixed_ok_before(analyzed, degree, fixed_col_values, fixed_col_values.len() as int)
    &&& committed_ok_before(
        analyzed,
        degree,
        fixed_col_values,
        external_witness_values,
        analyzed.committed@.len() as int,
    )
    &&& externals_ok_before(
        analyzed,
        external_witness_values,
        external_witness_values.len() as int,
    )
    &&& crate::analyzed::identities_wf(
        analyzed.identities@,
        fixed_col_values.len() as int,
        analyzed.committed@.len() as int,
    )
}

/// The degree and the field are right, and so are the first `n` fixed columns.
pub open spec fn fixed_stage(
    analyzed: Analyzed,
    degree: DegreeType,
    fixed_col_values: Seq<(&str, Vec<u64>)>,
    n: int,
) -> bool {
    &&& 1 <= degree <= usize::MAX
    &&& analyzed.field.wf()
    &&& fixed_ok_before(analyzed, degree, fixed_col_values, n)
}

/// All is right up to the fixed columns, and so are the first `n` committed columns.
pub open spec fn committed_stage(
    analyzed: Analyzed,
    degree: DegreeType,
    fixed_col_values: Seq<(&str, Vec<u64>)>,
    external_witness_values: Seq<(&str, Vec<u64>)>,
    n: int,
) -> bool {
    &&& fixed_stage(analyzed, degree, fixed_col_values, fixed_col_values.len() as int)
    &&& committed_ok_before(analyzed, degree, fixed_col_values, external_witness_values, n)
}

/// All is right up to the committed columns, and so are the first `n`
/// names under which values are supplied.
pub open spec fn externals_stage(
    analyzed: Analyzed,
    degree: DegreeType,
    fixed_col_values: Seq<(&str, Vec<u64>)>,
    external_witness_values: Seq<(&str, Vec<u64>)>,
    n: int,
) -> bool {
    &&& committed_stage(
        analyzed,
        degree,
        fixed_col_values,
        external_witness_values,
        analyzed.committed@.len() as int,
    )
    &&& externals_ok_before(analyzed, external_witness_values, n)
}

/// What each error says of the input that was rejected with it. The input
/// is gone through in a fixed order: the degree, the field, the fixed
/// columns, the committed columns with what is supplied for them, the
/// names under which values are supplied, the identities. The error tells
/// the first thing that is wrong, and so also that all before it is right.
pub open spec fn rejected_for(
    e: ConfigError,
    analyzed: Analyzed,
    degree: DegreeType,
    fixed_col_values: Seq<(&str, Vec<u64>)>,
    external_witness_values: Seq<(&str, Vec<u64>)>,
) -> bool {
    let committed = analyzed.committed@;
    let modulus = analyzed.field.modulus;
    match e {
        ConfigError::ZeroDegree => degree == 0,
        ConfigError::DegreeTooLarge => degree > usize::MAX,
        ConfigError::InvalidField => 1 <= degree <= usize::MAX && !analyzed.field.wf(),
        ConfigError::FixedColumnLength { column } => {
            &&& column < fixed_col_values.len()
            &&& fixed_stage(analyzed, degree, fixed_col_values, column as int)
            &&& fixed_col_values[column as int].1@.len() != degree
        },
        ConfigError::FixedColumnValue { column, row } => {
            &&& column < fixed_col_values.len()
            &&& fixed_stage(analyzed, degree, fixed_col_values, column as int)
            &&& fixed_col_values[column as int].1@.len() == degree
            &&& row < degree
            &&& fixed_col_values[column as int].1@[row as int] >= modulus
            &&& in_field(fixed_col_values[column as int].1@.take(row as int), modulus)
        },
        ConfigError::CommittedArray { column } => {
            &&& column < committed.len()
            &&& committed_stage(
                analyzed,
                degree,
                fixed_col_values,
                external_witness_values,
                column as int,
            )
            &&& committed[column as int].0.length is Some
        },
        ConfigError::ColumnIdMismatch { column } => {
            &&& column < committed.len()
            &&& committed_stage(
                analyzed,
                degree,
                fixed_col_values,
                external_witness_values,
                column as int,
            )
            &&& committed[column as int].0.length is None
            &&& committed[column as int].0.id != column
        },
        ConfigError::DuplicateColumnName { column } => {
            &&& column < committed.len()
            &&& committed_stage(
                analyzed,
                degree,
                fixed_col_values,
                external_witness_values,
                column as int,
            )
            &&& committed[column as int].0.length is None
            &&& committed[column as int].0.id == column
            &&& exists|i: int|
                0 <= i < column && (#[trigger] committed[i]).0.absolute_name@
                    == committed[column as int].0.absolute_name@
        },
        ConfigError::MalformedQuery { column } => {
            &&& column < committed.len()
            &&& committed_stage(
                analyzed,
                degree,
                fixed_col_values,
                external_witness_values,
                column as int,
            )
            &&& committed[column as int].0.length is None
            &&& committed[column as int].0.id == column
            &&& names_distinct(committed, column as int + 1)
            &&& match committed[column as int].1 {
                Some(FunctionValueDefinition::Query(q)) => !q.wf(
                    fixed_col_values.len() as int,
                    committed.len() as int,
                ),
                _ => false,
            }
        },
        ConfigError::ExternalWitnessLength { column } => {
            &&& column < committed.len()
            &&& committed_stage(
                analyzed,
                degree,
                fixed_col_values,
                external_witness_values,
                column as int,
            )
            &&& committed[column as int].0.length is None
            &&& committed[column as int].0.id == column
            &&& names_distinct(committed, column as int + 1)
            &&& match committed[column as int].1 {
                Some(FunctionValueDefinition::Query(q)) => q.wf(
                    fixed_col_values.len() as int,
                    committed.len() as int,
                ),
                _ => true,
            }
            &&& match external_for(
                external_witness_values,
                committed[column as int].0.absolute_name@,
            ) {
                Some(v) => v.len() != degree,
                None => false,
            }
        },
        ConfigError::ExternalWitnessValue { column, row } => {
            &&& column < committed.len()
            &&& committed_stage(
                analyzed,
                degree,
                fixed_col_values,
                external_witness_values,
                column as int,
            )
            &&& committed[column as int].0.length is None
            &&& committed[column as int].0.id == column
            &&& names_distinct(committed, column as int + 1)
            &&& match committed[column as int].1 {
                Some(FunctionValueDefinition::Query(q)) => q.wf(
                    fixed_col_values.len() as int,
                    committed.len() as int,
                ),
                _ => true,
            }
            &&& match external_for(
                external_witness_values,
                committed[column as int].0.absolute_name@,
            ) {
                Some(v) => v.len() == degree && row < degree && v[row as int] >= modulus
                    && in_field(v.take(row as int), modulus),
                None => false,
            }
        },
        ConfigError::ExternalWitnessTwice { index } => {
            &&& index < external_witness_values.len()
            &&& externals_stage(
                analyzed,
                degree,
                fixed_col_values,
                external_witness_values,
                index as int,
            )
            &&& declares(committed, external_witness_values[index as int].0@)
            &&& exists|k: int|
                0 <= k < index && (#[trigger] external_witness_values[k]).0@
                    == external_witness_values[index as int].0@
        },
        ConfigError::UnknownExternalWitness { index } => {
            &&& index < external_witness_values.len()
            &&& externals_stage(
                analyzed,
                degree,
                fixed_col_values,
                external_witness_values,
                index as int,
            )
            &&& !declares(committed, external_witness_values[index as int].0@)
        },
        ConfigError::MalformedIdentity { identity } => {
            &&& identity < analyzed.identities@.len()
            &&& externals_stage(
                analyzed,
                degree,
                fixed_col_values,
                external_witness_values,
                external_witness_values.len() as int,
            )
            &&& !analyzed.identities@[identity as int].wf(
                fixed_col_values.len() as int,
                committed.len() as int,
            )
            &&& crate::analyzed::identities_wf(
                analyzed.identities@.take(identity as int),
                fixed_col_values.len() as int,
                committed.len() as int,
            )
        },
    }
}

impl<'a> FixedData<'a> {
    pub open spec fn fixed_count(&self) -> int {
        self.fixed_cols.values@.len() as int
    }

    pub open spec fn witness_count(&self) -> int {
        self.witness_cols.values@.len() as int
    }

    /// The values of the fixed columns, `fixed_values()[column][row]`.
    pub open spec fn fixed_values(&self) -> Seq<Seq<u64>> {
        Seq::new(self.fixed_cols.values@.len(), |c: int| self.fixed_cols.values@[c].values@)
    }

    /// The trace has rows that can be addressed, and every column that is
    /// held has one field element per row.
    pub open spec fn wf(&self) -> bool {
        &&& self.field.wf()
        &&& 1 <= self.degree <= usize::MAX
        &&& forall|c: int|
            0 <= c < self.fixed_count() ==> {
                &&& (#[trigger] self.fixed_cols.values@[c]).values@.len() == self.degree
                &&& in_field(self.fixed_cols.values@[c].values@, self.field.modulus)
            }
        &&& forall|c: int|
            0 <= c < self.witness_count() ==> {
                &&& match (#[trigger] self.witness_cols.values@[c]).external_view() {
                    Some(v) => v.len() == self.degree && in_field(v, self.field.modulus),
                    None => true,
                }
                &&& match self.witness_cols.values@[c].query {
                    Some(q) => {
                        &&& q.expr.wf(self.fixed_count(), self.witness_count())
                        &&& q.poly.poly_id == Some(
                            PolyID { id: c as u64, ptype: PolynomialType::Committed },
                        )
                        &&& !q.poly.next
                    },
                    None => true,
                }
            }
    }

    /// The data holds exactly what the input gives: the fixed columns as they
    /// are, and each committed column with its query and with the values last
    /// supplied under its name.
    pub open spec fn built_from(
        &self,
        analyzed: Analyzed,
        degree: DegreeType,
        fixed_col_values: Seq<(&str, Vec<u64>)>,
        external_witness_values: Seq<(&str, Vec<u64>)>,
    ) -> bool {
        &&& self.field == analyzed.field
        &&& self.degree == degree
        &&& self.fixed_count() == fixed_col_values.len()
        &&& forall|c: int|
            0 <= c < fixed_col_values.len() ==> {
                &&& (#[trigger] self.fixed_cols.values@[c]).name@ == fixed_col_values[c].0@
                &&& self.fixed_cols.values@[c].values@ == fixed_col_values[c].1@
            }
        &&& self.witness_count() == analyzed.committed@.len()
        &&& forall|i: int|
            0 <= i < analyzed.committed@.len() ==> (#[trigger] self.witness_cols.values@[i]).made_of(
                i,
                analyzed.committed@[i].0.absolute_name@,
                analyzed.committed@[i].1,
                external_for(external_witness_values, analyzed.committed@[i].0.absolute_name@),
            )
    }

    /// Collects what stays fixed during witness generation, from an input
    /// that can be worked on. Whether an input can be, `try_new` tells.
    pub fn new(
        analyzed: &'a Analyzed,
        degree: DegreeType,
        fixed_col_values: &'a [(&str, Vec<u64>)],
        external_witness_values: Vec<(&'a str, Vec<u64>)>,
    ) -> (r: FixedData<'a>)
        requires
            valid_setup(*analyzed, degree, fixed_col_values@, external_witness_values@),
        ensures
            r.wf(),
            r.built_from(*analyzed, degree, fixed_col_values@, external_witness_values@),
    {
        match Self::try_new(analyzed, degree, fixed_col_values, external_witness_values) {
            Ok(fixed) => fixed,
            Err(_) => unreached(),
        }
    }

    /// Checks the input and, where it can be worked on, collects what stays
    /// fixed during witness generation. An input that cannot be worked on
    /// is rejected with the first reason that the checks find.
    pub fn try_new(
        analyzed: &'a Analyzed,
        degree: DegreeType,
        fixed_col_values: &'a [(&str, Vec<u64>)],
        external_witness_values: Vec<(&'a str, Vec<u64>)>,
    ) -> (r: Result<FixedData<'a>, ConfigError>)
        ensures
            r is Ok <==> valid_setup(
                *analyzed,
                degree,
                fixed_col_values@,
                external_witness_values@,
            ),
            match r {
                Ok(fixed) => fixed.wf() && fixed.built_from(
                    *analyzed,
                    degree,
                    fixed_col_values@,
                    external_witness_values@,
                ),
                Err(e) => rejected_for(
                    e,
                    *analyzed,
                    degree,
                    fixed_col_values@,
                    external_witness_values@,
                ),
            },
    {
        let field: Field = analyzed.field;
        if degree == 0 {
            return Err(ConfigError::ZeroDegree);
        }
        if degree > usize::MAX as u64 {
            return Err(ConfigError::DegreeTooLarge);
        }
        if field.modulus < 2 {
            return Err(ConfigError::InvalidField);
        }
        let committed = analyzed.committed_polys_in_source_order();
        let fixed_count: usize = fixed_col_values.len();
        let witness_count: usize = committed.len();

        let mut fixed_cols: Vec<FixedColumn<'a>> = Vec::new();
        let mut c: usize = 0;
        while c < fixed_count
            invariant
                c <= fixed_count,
                fixed_count == fixed_col_values@.len(),
                field == analyzed.field,
                fixed_cols@.len() == c,
                fixed_stage(*analyzed, degree, fixed_col_values@, c as int),
                forall|k: int|
                    0 <= k < c ==> {
                        &&& (#[trigger] fixed_cols@[k]).name@ == fixed_col_values@[k].0@
                        &&& fixed_cols@[k].values@ == fixed_col_values@[k].1@
                    },
            decreases fixed_count - c,
        {
            let values: &'a Vec<u64> = &fixed_col_values[c].1;
            if values.len() as u64 != degree {
                return Err(ConfigError::FixedColumnLength { column: c });
            }
            match first_outside_field(&field, values) {
                Some(row) => {
                    return Err(ConfigError::FixedColumnValue { column: c, row });
                },
                None => {},
            }
            fixed_cols.push(FixedColumn::new(fixed_col_values[c].0, values));
            c += 1;
        }

        let mut witness_cols: Vec<WitnessColumn<'a>> = Vec::new();
        let mut i: usize = 0;
        while i < witness_count
            invariant
                i <= witness_count,
                witness_count == analyzed.committed@.len(),
                committed == &analyzed.committed,
                fixed_count == fixed_col_values@.len(),
                field == analyzed.field,
                witness_cols@.len() == i,
                committed_stage(
                    *analyzed,
                    degree,
                    fixed_col_values@,
                    external_witness_values@,
                    i as int,
                ),
                forall|k: int|
                    0 <= k < i ==> (#[trigger] witness_cols@[k]).made_of(
                        k,
                        analyzed.committed@[k].0.absolute_name@,
                        analyzed.committed@[k].1,
                        external_for(
                            external_witness_values@,
                            analyzed.committed@[k].0.absolute_name@,
                        ),
                    ),
            decreases witness_count - i,
        {
            let poly = &committed[i].0;
            let value: &'a Option<FunctionValueDefinition> = &committed[i].1;
            if poly.length.is_some() {
                return Err(ConfigError::CommittedArray { column: i });
            }
            if poly.id != i as u64 {
                return Err(ConfigError::ColumnIdMismatch { column: i });
            }
            match find_declared(committed, i, poly.absolute_name.as_str()) {
                Some(earlier) => {
                    return Err(ConfigError::DuplicateColumnName { column: i });
                },
                None => {},
            }
            let query_ok: bool = match value {
                Some(FunctionValueDefinition::Query(q)) => q.is_wf(fixed_count, witness_count),
                _ => true,
            };
            if !query_ok {
                return Err(ConfigError::MalformedQuery { column: i });
            }
            let external_values: Option<Vec<u64>> = match find_external(
                &external_witness_values,
                poly.absolute_name.as_str(),
            ) {
                Some(j) => {
                    let supplied: &Vec<u64> = &external_witness_values[j].1;
                    if supplied.len() as u64 != degree {
                        return Err(ConfigError::ExternalWitnessLength { column: i });
                    }
                    match first_outside_field(&field, supplied) {
                        Some(row) => {
                            return Err(ConfigError::ExternalWitnessValue { column: i, row });
                        },
                        None => {},
                    }
                    Some(copy_values(supplied))
                },
                None => None,
            };
            let col = WitnessColumn::new(i, poly.absolute_name.as_str(), value, external_values);
            witness_cols.push(col);
            i += 1;
        }

        let mut j: usize = 0;
        while j < external_witness_values.len()
            invariant
                j <= external_witness_values@.len(),
                committed == &analyzed.committed,
                witness_count == analyzed.committed@.len(),
                externals_stage(
                    *analyzed,
                    degree,
                    fixed_col_values@,
                    external_witness_values@,
                    j as int,
                ),
            decreases external_witness_values.len() - j,
        {
            match find_declared(committed, witness_count, external_witness_values[j].0) {
                Some(i) => {},
                None => {
                    return Err(ConfigError::UnknownExternalWitness { index: j });
                },
            }
            match find_supplied(&external_witness_values, j, external_witness_values[j].0) {
                Some(earlier) => {
                    return Err(ConfigError::ExternalWitnessTwice { index: j });
                },
                None => {},
            }
            j += 1;
        }

        match analyzed.first_malformed_identity(fixed_count, witness_count) {
            Some(identity) => {
                return Err(ConfigError::MalformedIdentity { identity });
            },
            None => {},
        }

        let fixed_cols = FixedColumnMap::from(fixed_cols);
        let witness_cols = WitnessColumnMap::from(witness_cols);
        Ok(FixedData { field, degree, fixed_cols, witness_cols })
    }

    /// A map that gives every witness column a clone of the initial value.
    pub fn witness_map_with<V: Clone>(&self, initial_value: V) -> (r: WitnessColumnMap<V>)
        ensures
            r.values@.len() == self.witness_count(),
            forall|i: int|
                0 <= i < self.witness_count() ==> cloned(initial_value, #[trigger] r.values@[i]),
    {
        WitnessColumnMap::new(initial_value, self.witness_cols.len())
    }

    /// Whether the identifier names a column that the data holds.
    pub open spec fn has_column(&self, poly_id: PolyID) -> bool {
        match poly_id.ptype {
            PolynomialType::Committed => poly_id.id < self.witness_count(),
            PolynomialType::Constant => poly_id.id < self.fixed_count(),
            PolynomialType::Intermediate => false,
        }
    }

    /// The name of a column.
    pub fn column_name(&self, poly_id: &PolyID) -> (r: &str)
        requires
            self.has_column(*poly_id),
        ensures
            r@ == match poly_id.ptype {
                PolynomialType::Committed => self.witness_cols.values@[poly_id.id as int].name@,
                _ => self.fixed_cols.values@[poly_id.id as int].name@,
            },
    {
        match poly_id.ptype {
            PolynomialType::Committed => self.witness_cols.get(poly_id).name.as_str(),
            PolynomialType::Constant => self.fixed_cols.get(poly_id).name.as_str(),
            PolynomialType::Intermediate => "",
        }
    }

    /// The value supplied for a witness column on a row, if values were
    /// supplied for the column. Rows are counted on the cycle: the row
    /// `degree` is row 0 again.
    pub fn external_witness(&self, row: DegreeType, column: &PolyID) -> (r: Option<u64>)
        requires
            self.wf(),
            self.witness_cols.has(*column),
        ensures
            r == match self.witness_cols.values@[column.id as int].external_view() {
                Some(v) => Some(v[(row % self.degree) as int]),
                None => None,
            },
    {
        let row: u64 = row % self.degree;
        match &self.witness_cols.get(column).external_values {
            Some(v) => Some(v[row as usize]),
            None => None,
        }
    }
}

/// Why no witness was generated.
#[derive(Clone, Copy, Debug, PartialEq, Eq, Structural)]
pub enum WitgenError {
    /// The input was rejected before any row was solved.
    Setup(ConfigError),
    /// No solution was found.
    Solving(EvalError),
}

/// The trace that the fixed columns and the generated columns make.
pub open spec fn output_trace(
    analyzed: Analyzed,
    degree: DegreeType,
    fixed_col_values: Seq<(&str, Vec<u64>)>,
    columns: Seq<(&str, Vec<u64>)>,
) -> Trace {
    Trace {
        modulus: analyzed.field.modulus as int,
        degree: degree as int,
        fixed: fixed_values_of(fixed_col_values),
        witness: Seq::new(columns.len(), |i: int| columns[i].1@),
    }
}

/// Whether values were supplied for every committed column.
pub open spec fn all_supplied(
    analyzed: Analyzed,
    external_witness_values: Seq<(&str, Vec<u64>)>,
) -> bool {
    forall|i: int|
        0 <= i < analyzed.committed@.len() ==> external_for(
            external_witness_values,
            (#[trigger] analyzed.committed@[i]).0.absolute_name@,
        ) is Some
}

/// The trace that the fixed columns and the supplied columns make.
pub open spec fn supplied_trace(
    analyzed: Analyzed,
    degree: DegreeType,
    fixed_col_values: Seq<(&str, Vec<u64>)>,
    external_witness_values: Seq<(&str, Vec<u64>)>,
) -> Trace {
    Trace {
        modulus: analyzed.field.modulus as int,
        degree: degree as int,
        fixed: fixed_values_of(fixed_col_values),
        witness: Seq::new(
            analyzed.committed@.len(),
            |i: int|
                external_for(external_witness_values, analyzed.committed@[i].0.absolute_name@)->0,
        ),
    }
}

/// Whether the columns are a witness for the input: one column for each
/// committed column, in the order and under the names of the declarations,
/// with one field element per row; together with the fixed columns they
/// satisfy every identity on every row and stay below every limit that an
/// identity captures; and a column for which values were supplied holds
/// exactly these.
pub open spec fn is_witness(
    analyzed: Analyzed,
    degree: DegreeType,
    fixed_col_values: Seq<(&str, Vec<u64>)>,
    external_witness_values: Seq<(&str, Vec<u64>)>,
    columns: Seq<(&str, Vec<u64>)>,
) -> bool {
    let committed = analyzed.committed@;
    &&& columns.len() == committed.len()
    &&& forall|i: int|
        0 <= i < columns.len() ==> {
            &&& (#[trigger] columns[i]).0@ == committed[i].0.absolute_name@
            &&& columns[i].1@.len() == degree
        }
    &&& forall|i: int, j: int|
        0 <= i < j < columns.len() ==> (#[trigger] columns[i]).0@ != (#[trigger] columns[j]).0@
    &&& output_trace(analyzed, degree, fixed_col_values, columns).wf()
    &&& output_trace(analyzed, degree, fixed_col_values, columns).satisfies(analyzed.identities@)
    &&& bounded(
        output_trace(analyzed, degree, fixed_col_values, columns),
        analyzed.identities@,
    )
    &&& forall|i: int|
        0 <= i < columns.len() ==> match external_for(
            external_witness_values,
            committed[i].0.absolute_name@,
        ) {
            Some(v) => (#[trigger] columns[i]).1@ == v,
            None => true,
        }
    &&& forall|j: int, i: int|
        0 <= j < external_witness_values.len() && 0 <= i < columns.len() && (
        #[trigger] columns[i]).0@ == (#[trigger] external_witness_values[j]).0@ ==> columns[i].1@
            == external_witness_values[j].1@
}

/// Whether no cell is one to ask for: values were supplied for every
/// committed column that has a query.
pub open spec fn no_open_query(
    analyzed: Analyzed,
    external_witness_values: Seq<(&str, Vec<u64>)>,
) -> bool {
    forall|i: int|
        0 <= i < analyzed.committed@.len() ==> match (#[trigger] analyzed.committed@[i]).1 {
            Some(FunctionValueDefinition::Query(_)) => external_for(
                external_witness_values,
                analyzed.committed@[i].0.absolute_name@,
            ) is Some,
            _ => true,
        }
}

/// Whether the trace has the shape and the given values of the input and
/// satisfies the identities: it has the fixed columns and one column for
/// each committed column, with the supplied values where values were
/// supplied, and every identity holds on every row.
pub open spec fn satisfies_input(
    t: Trace,
    analyzed: Analyzed,
    degree: DegreeType,
    fixed_col_values: Seq<(&str, Vec<u64>)>,
    external_witness_values: Seq<(&str, Vec<u64>)>,
) -> bool {
    &&& t.wf()
    &&& t.modulus == analyzed.field.modulus
    &&& t.degree == degree
    &&& t.fixed == fixed_values_of(fixed_col_values)
    &&& t.witness.len() == analyzed.committed@.len()
    &&& forall|i: int|
        0 <= i < analyzed.committed@.len() ==> match external_for(
            external_witness_values,
            (#[trigger] analyzed.committed@[i]).0.absolute_name@,
        ) {
            Some(v) => t.witness[i] == v,
            None => true,
        }
    &&& t.satisfies(analyzed.identities@)
}

/// Whether the trace is a solution for the input: it has the shape and the
/// given values of the input, satisfies every identity on every row and
/// stays below every limit that an identity captures.
pub open spec fn solves_input(
    t: Trace,
    analyzed: Analyzed,
    degree: DegreeType,
    fixed_col_values: Seq<(&str, Vec<u64>)>,
    external_witness_values: Seq<(&str, Vec<u64>)>,
) -> bool {
    &&& satisfies_input(t, analyzed, degree, fixed_col_values, external_witness_values)
    &&& bounded(t, analyzed.identities@)
}

/// Over a prime field the identities alone say what a solution is: a trace
/// that satisfies them stays below every limit that one of them captures.
pub proof fn lemma_prime_solution(
    t: Trace,
    analyzed: Analyzed,
    degree: DegreeType,
    fixed_col_values: Seq<(&str, Vec<u64>)>,
    external_witness_values: Seq<(&str, Vec<u64>)>,
)
    requires
        valid_setup(analyzed, degree, fixed_col_values, external_witness_values),
        crate::field::is_prime(analyzed.field.modulus as int),
        satisfies_input(t, analyzed, degree, fixed_col_values, external_witness_values),
    ensures
        solves_input(t, analyzed, degree, fixed_col_values, external_witness_values),
{
    crate::global_constraints::lemma_prime_bounded(t, analyzed.identities@);
}

/// Whether the main solver and the machines are what the system is split
/// into: the identities that no bound captures and the witness columns,
/// each with one owner, a machine for each lookup that is kept and looks
/// into columns not yet taken.
pub open spec fn split_of<'a>(
    main: Generator<'a>,
    machines: Seq<Machine<'a>>,
    retained: Seq<bool>,
    fixed: &'a FixedData<'a>,
    identities: &'a Vec<crate::analyzed::Identity>,
    constraints: &'a crate::global_constraints::GlobalConstraints,
) -> bool {
    &&& main.wf()
    &&& main.fixed == fixed
    &&& main.identities == identities
    &&& main.global_range_constraints == constraints
    &&& crate::global_constraints::retained_of(fixed, identities@, retained)
    &&& crate::machines::machine_extractor::partition(
        machines,
        main.owned_identities@,
        main.witnesses@,
        retained,
    )
    &&& forall|k: int|
        0 <= k < machines.len() ==> machine_ok(
            (#[trigger] machines[k]).generator(),
            fixed,
            identities,
            retained,
            constraints,
        )
    &&& crate::machines::machine_extractor::machines_made(
        machines,
        identities@,
        retained,
        fixed.witness_count() as int,
    )
    &&& crate::machines::machine_extractor::tables_taken(
        identities@,
        retained,
        main.witnesses@,
        identities@.len() as int,
    )
}

/// Whether the solver works on the input, on one of the parts that the
/// system is split into: the main solver's or a machine's.
pub open spec fn solver_for<'a>(
    g: Generator<'a>,
    analyzed: Analyzed,
    degree: DegreeType,
    fixed_col_values: Seq<(&str, Vec<u64>)>,
    external_witness_values: Seq<(&str, Vec<u64>)>,
) -> bool {
    &&& g.wf()
    &&& g.fixed.wf()
    &&& g.fixed.built_from(analyzed, degree, fixed_col_values, external_witness_values)
    &&& g.identities@ == analyzed.identities@
    &&& crate::global_constraints::constraints_of(
        g.fixed,
        g.identities@,
        g.global_range_constraints.witness_constraints@,
    )
    &&& exists|main: Generator<'a>, machines: Seq<Machine<'a>>, retained: Seq<bool>| #[trigger]
        split_of(main, machines, retained, g.fixed, g.identities, g.global_range_constraints) && (
        g.same_task(&main) || exists|k: int|
            0 <= k < machines.len() && g.same_task(&(#[trigger] machines[k]).generator()))
}

/// Whether solving the input comes to the result, by way of these solvers.
/// The data is built from the input and the system is split into the part
/// of `start` and those of the machines of `split`, each of which knows
/// the supplied values of its columns and nothing else. From there they run
/// as `system_ran` says, to `end` and `machines`, with the result.
pub open spec fn solved_as<'a>(
    start: Generator<'a>,
    split: Seq<Machine<'a>>,
    retained: Seq<bool>,
    end: Generator<'a>,
    machines: Seq<Machine<'a>>,
    analyzed: Analyzed,
    degree: DegreeType,
    fixed_col_values: Seq<(&str, Vec<u64>)>,
    external_witness_values: Seq<(&str, Vec<u64>)>,
    solving: Result<(), EvalError>,
) -> bool {
    &&& start.fixed.wf()
    &&& start.fixed.built_from(analyzed, degree, fixed_col_values, external_witness_values)
    &&& start.identities@ == analyzed.identities@
    &&& crate::global_constraints::constraints_of(
        start.fixed,
        start.identities@,
        start.global_range_constraints.witness_constraints@,
    )
    &&& split_of(
        start,
        split,
        retained,
        start.fixed,
        start.identities,
        start.global_range_constraints,
    )
    &&& at_start(start)
    &&& end.same_task(&start)
    &&& Generator::machines_follow(machines, split)
    &&& end.system_ran(&start, machines, split, solving)
}

/// Whether the solver is one for a part of the input and has stopped
/// with the error: what the error says holds of the cells that the solver
/// knows, the rows before the one that the error names are filled, and a
/// cell that is reported as stuck is the first open one of a row on which
/// nothing more follows from what is known. Where the input has no cell to
/// ask for, every solution for the input has the values that the solver
/// knows.
pub open spec fn stopped_solver<'a>(
    g: Generator<'a>,
    analyzed: Analyzed,
    degree: DegreeType,
    fixed_col_values: Seq<(&str, Vec<u64>)>,
    external_witness_values: Seq<(&str, Vec<u64>)>,
    e: EvalError,
) -> bool {
    &&& solver_for(g, analyzed, degree, fixed_col_values, external_witness_values)
    &&& g.failed_with(e)
    &&& g.stopped_by(e)
    &&& no_open_query(analyzed, external_witness_values) ==> forall|t: Trace| #[trigger]
        solves_input(t, analyzed, degree, fixed_col_values, external_witness_values) ==> crate::rows::completes(
            t,
            g.fixed,
            g.rows@,
        )
}

/// What the solvers of a split have at the start: where no cell is one to
/// ask for, none of them has one; and a solution for the input solves the
/// part of each.
proof fn lemma_start<'a>(
    main: Generator<'a>,
    machines: Seq<Machine<'a>>,
    fixed: &'a FixedData<'a>,
    identities: &'a Vec<crate::analyzed::Identity>,
    constraints: &'a crate::global_constraints::GlobalConstraints,
    retained: Seq<bool>,
    analyzed: Analyzed,
    degree: DegreeType,
    fixed_col_values: Seq<(&str, Vec<u64>)>,
    external_witness_values: Seq<(&str, Vec<u64>)>,
)
    requires
        fixed.wf(),
        fixed.built_from(analyzed, degree, fixed_col_values, external_witness_values),
        identities@ == analyzed.identities@,
        crate::analyzed::identities_wf(identities@, fixed.fixed_count(), fixed.witness_count()),
        crate::global_constraints::constraints_of(
            fixed,
            identities@,
            constraints.witness_constraints@,
        ),
        main.wf(),
        main.fixed == fixed,
        main.identities == identities,
        main.global_range_constraints == constraints,
        at_start(main),
        forall|k: int|
            0 <= k < machines.len() ==> machine_ok(
                (#[trigger] machines[k]).generator(),
                fixed,
                identities,
                retained,
                constraints,
            ),
    ensures
        no_open_query(analyzed, external_witness_values) ==> main.all_quiet(machines),
        forall|t: Trace| #[trigger]
            solves_input(t, analyzed, degree, fixed_col_values, external_witness_values)
                ==> main.system_solution(machines, t),
{
    if no_open_query(analyzed, external_witness_values) {
        assert forall|c: int|
            0 <= c < fixed.witness_count() && (
            #[trigger] fixed.witness_cols.values@[c]).query is Some implies fixed.witness_cols.values@[c].external_view() is Some by {
            assert(fixed.witness_cols.values@[c].made_of(
                c,
                analyzed.committed@[c].0.absolute_name@,
                analyzed.committed@[c].1,
                external_for(external_witness_values, analyzed.committed@[c].0.absolute_name@),
            ));
        }
        lemma_start_quiet(main);
        assert forall|k: int| 0 <= k < machines.len() implies (
        #[trigger] machines[k]).generator().quiet() by {
            let m = machines[k].generator();
            assert(machine_ok(m, fixed, identities, retained, constraints));
            lemma_start_quiet(m);
        }
    }
    assert forall|t: Trace| #[trigger]
        solves_input(
            t,
            analyzed,
            degree,
            fixed_col_values,
            external_witness_values,
        ) implies main.system_solution(machines, t) by {
        assert(t.fixed =~= fixed.fixed_values()) by {
            assert forall|c: int| 0 <= c < t.fixed.len() implies t.fixed[c]
                == fixed.fixed_values()[c] by {
                assert(fixed.fixed_cols.values@[c].values@ == fixed_col_values[c].1@);
            }
        }
        assert forall|c: int| 0 <= c < fixed.witness_count() implies match (
        #[trigger] fixed.witness_cols.values@[c]).external_view() {
            Some(v) => t.witness[c] == v,
            None => true,
        } by {
            assert(fixed.witness_cols.values@[c].made_of(
                c,
                analyzed.committed@[c].0.absolute_name@,
                analyzed.committed@[c].1,
                external_for(external_witness_values, analyzed.committed@[c].0.absolute_name@),
            ));
        }
        assert(agrees(t, fixed));
        lemma_bounded(fixed, identities@, constraints.witness_constraints@, t);
        lemma_start_solution(main, t);
        assert forall|k: int| 0 <= k < machines.len() implies (
        #[trigger] machines[k]).generator().solution(t) by {
            let m = machines[k].generator();
            assert(machine_ok(m, fixed, identities, retained, constraints));
            lemma_start_solution(m, t);
        }
    }
}

/// The values of the fixed columns.
pub open spec fn fixed_values_of(fixed_col_values: Seq<(&str, Vec<u64>)>) -> Seq<Seq<u64>> {
    Seq::new(fixed_col_values.len(), |c: int| fixed_col_values[c].1@)
}

/// What an error that ends the solving says of the input. The row, and
/// the column or identity that the error names, exist. An identity that is
/// contradicted is none that says no more than a bound. A cell that nothing
/// determines is in a column for which no values were supplied. A bound that
/// is violated is one that an identity captures. And no identity is left
/// reading an open cell.
pub open spec fn located(
    e: EvalError,
    analyzed: Analyzed,
    degree: DegreeType,
    fixed_col_values: Seq<(&str, Vec<u64>)>,
    external_witness_values: Seq<(&str, Vec<u64>)>,
) -> bool {
    let identities = analyzed.identities@;
    let fixed_values = fixed_values_of(fixed_col_values);
    match e {
        EvalError::ConstraintUnsatisfiable { row, identity } => {
            &&& row < degree
            &&& identity < identities.len()
            &&& forall|c: int, limit: int|
                !#[trigger] captures_in(fixed_values, identities[identity as int], c, limit)
        },
        EvalError::Stuck { row, column } => {
            &&& row < degree
            &&& column < analyzed.committed@.len()
            &&& external_for(
                external_witness_values,
                analyzed.committed@[column as int].0.absolute_name@,
            ) is None
        },
        EvalError::Unresolved { row, identity } => false,
        EvalError::RangeConstraintViolated { row, column } => {
            &&& row < degree
            &&& column < analyzed.committed@.len()
            &&& exists|i: int, limit: int|
                0 <= i < identities.len() && #[trigger] captures_in(
                    fixed_values,
                    identities[i],
                    column as int,
                    limit,
                )
        },
    }
}

/// What a solver's failure says of the data says the same of the input
/// that the data was built from.
proof fn lemma_located(
    e: EvalError,
    fixed: &FixedData,
    analyzed: Analyzed,
    degree: DegreeType,
    fixed_col_values: Seq<(&str, Vec<u64>)>,
    external_witness_values: Seq<(&str, Vec<u64>)>,
    constraints: Seq<Option<crate::range_constraints::RangeConstraint>>,
)
    requires
        fixed.wf(),
        fixed.built_from(analyzed, degree, fixed_col_values, external_witness_values),
        failure_located(e, fixed, analyzed.identities@, constraints),
    ensures
        located(e, analyzed, degree, fixed_col_values, external_witness_values),
{
    let identities = analyzed.identities@;
    let fixed_values = fixed_values_of(fixed_col_values);
    assert(fixed_values =~= fixed.fixed_values()) by {
        assert forall|c: int| 0 <= c < fixed_values.len() implies fixed_values[c]
            == fixed.fixed_values()[c] by {
            assert(fixed.fixed_cols.values@[c].values@ == fixed_col_values[c].1@);
        }
    }
    match e {
        EvalError::ConstraintUnsatisfiable { row, identity } => {
            assert forall|c: int, limit: int|
                !#[trigger] captures_in(fixed_values, identities[identity as int], c, limit) by {
                if captures_in(fixed_values, identities[identity as int], c, limit) {
                    assert(captures(fixed, identities[identity as int], c, limit));
                }
            }
        },
        EvalError::Stuck { row, column } => {
            let c = column as int;
            assert(fixed.witness_cols.values@[c].made_of(
                c,
                analyzed.committed@[c].0.absolute_name@,
                analyzed.committed@[c].1,
                external_for(external_witness_values, analyzed.committed@[c].0.absolute_name@),
            ));
        },
        EvalError::Unresolved { row, identity } => {},
        EvalError::RangeConstraintViolated { row, column } => {
            let (i, limit) = choose|i: int, limit: int|
                0 <= i < identities.len() && #[trigger] captures(
                    fixed,
                    identities[i],
                    column as int,
                    limit,
                );
            assert(captures_in(fixed_values, identities[i], column as int, limit));
        },
    }
}

/// Where values were supplied for all columns, the data that was built from
/// a valid input holds the supplied trace.
proof fn lemma_supplies(
    fixed: &FixedData,
    analyzed: Analyzed,
    degree: DegreeType,
    fixed_col_values: Seq<(&str, Vec<u64>)>,
    external_witness_values: Seq<(&str, Vec<u64>)>,
)
    requires
        fixed.wf(),
        fixed.built_from(analyzed, degree, fixed_col_values, external_witness_values),
        all_supplied(analyzed, external_witness_values),
    ensures
        supplies(
            supplied_trace(analyzed, degree, fixed_col_values, external_witness_values),
            fixed,
        ),
{
    let t = supplied_trace(analyzed, degree, fixed_col_values, external_witness_values);
    assert(t.fixed =~= fixed.fixed_values()) by {
        assert forall|c: int| 0 <= c < t.fixed.len() implies t.fixed[c] == fixed.fixed_values()[c] by {
            assert(fixed.fixed_cols.values@[c].values@ == fixed_col_values[c].1@);
        }
    }
    assert forall|c: int| 0 <= c < fixed.witness_count() implies (
    #[trigger] fixed.witness_cols.values@[c]).external_view() == Some(t.witness[c]) by {
        assert(fixed.witness_cols.values@[c].made_of(
            c,
            analyzed.committed@[c].0.absolute_name@,
            analyzed.committed@[c].1,
            external_for(external_witness_values, analyzed.committed@[c].0.absolute_name@),
        ));
        assert(external_for(external_witness_values, analyzed.committed@[c].0.absolute_name@) is Some);
    }
    assert forall|c: int| 0 <= c < t.fixed.len() implies (#[trigger] t.fixed[c]).len()
        == t.degree by {
        assert(fixed.fixed_cols.values@[c].values@.len() == fixed.degree);
    }
    assert forall|c: int, r: int| 0 <= c < t.fixed.len() && 0 <= r < t.degree implies (
    #[trigger] t.fixed[c][r]) < t.modulus by {
        assert(fixed.fixed_cols.values@[c].values@.len() == fixed.degree);
    }
    assert forall|c: int| 0 <= c < t.witness.len() implies (#[trigger] t.witness[c]).len()
        == t.degree by {
        assert(fixed.witness_cols.values@[c].external_view() == Some(t.witness[c]));
    }
    assert forall|c: int, r: int| 0 <= c < t.witness.len() && 0 <= r < t.degree implies (
    #[trigger] t.witness[c][r]) < t.modulus by {
        assert(fixed.witness_cols.values@[c].external_view() == Some(t.witness[c]));
    }
}

/// Whether a number of rows is zero, by `num_traits::Zero::is_zero`, which
/// compares the number with 0.
#[verifier::external_body]
fn degree_is_zero(degree: DegreeType) -> (r: bool)
    ensures
        r == (degree == 0),
{
    num_traits::Zero::is_zero(&degree)
}

/// The entry with the given name, if there is one.
fn find_column(columns: &Vec<(&str, Vec<u64>)>, name: &str) -> (r: Option<usize>)
    ensures
        match r {
            Some(j) => j < columns@.len() && columns@[j as int].0@ == name@,
            None => forall|j: int| 0 <= j < columns@.len() ==> (#[trigger] columns@[j]).0@ != name@,
        },
{
    let mut j: usize = 0;
    while j < columns.len()
        invariant
            j <= columns@.len(),
            forall|k: int| 0 <= k < j ==> (#[trigger] columns@[k]).0@ != name@,
        decreases columns.len() - j,
    {
        if crate::setup::str_equal(columns[j].0, name) {
            return Some(j);
        }
        j += 1;
    }
    None
}

/// Adds copies of the entries to the columns.
fn append_columns<'x>(columns: &mut Vec<(&'x str, Vec<u64>)>, taken: &Vec<(&'x str, Vec<u64>)>)
    ensures
        column_pairs(final(columns)@) == column_pairs(old(columns)@) + column_pairs(taken@),
{
    let mut j: usize = 0;
    while j < taken.len()
        invariant
            j <= taken@.len(),
            column_pairs(columns@) == column_pairs(old(columns)@) + column_pairs(taken@).take(
                j as int,
            ),
        decreases taken.len() - j,
    {
        let ghost before = column_pairs(columns@);
        let name: &'x str = taken[j].0;
        let values: Vec<u64> = copy_values(&taken[j].1);
        columns.push((name, values));
        proof {
            let all = column_pairs(taken@);
            assert(all.take(j as int + 1) == all.take(j as int).push(all[j as int]));
            assert(column_pairs(columns@) =~= before.push(all[j as int]));
            assert(before.push(all[j as int]) =~= column_pairs(old(columns)@) + all.take(
                j as int + 1,
            ));
        }
        j += 1;
    }
    proof {
        assert(column_pairs(taken@).take(j as int) == column_pairs(taken@));
    }
}

/// Generates the witness of a constraint system.
pub struct WitnessGenerator<'a, 'b, Q: QueryCallback> {
    pub analyzed: &'a Analyzed,
    pub degree: DegreeType,
    pub fixed_col_values: &'b [(&'a str, Vec<u64>)],
    pub query_callback: Q,
    pub external_witness_values: Vec<(&'a str, Vec<u64>)>,
}

impl<'a, 'b, Q: QueryCallback> WitnessGenerator<'a, 'b, Q> {
    pub fn new(
        analyzed: &'a Analyzed,
        degree: DegreeType,
        fixed_col_values: &'b [(&'a str, Vec<u64>)],
        query_callback: Q,
    ) -> (r: Self)
        ensures
            r.analyzed == analyzed,
            r.degree == degree,
            r.fixed_col_values == fixed_col_values,
            r.query_callback == query_callback,
            r.external_witness_values@.len() == 0,
    {
        WitnessGenerator {
            analyzed,
            degree,
            fixed_col_values,
            query_callback,
            external_witness_values: Vec::new(),
        }
    }

    /// Supplies values for witness columns. Such a column is not solved: it
    /// has the supplied values, and these must satisfy the identities.
    pub fn with_external_witness_values(
        self,
        external_witness_values: Vec<(&'a str, Vec<u64>)>,
    ) -> (r: Self)
        ensures
            r.analyzed == self.analyzed,
            r.degree == self.degree,
            r.fixed_col_values == self.fixed_col_values,
            r.query_callback == self.query_callback,
            r.external_witness_values == external_witness_values,
    {
        WitnessGenerator {
            analyzed: self.analyzed,
            degree: self.degree,
            fixed_col_values: self.fixed_col_values,
            query_callback: self.query_callback,
            external_witness_values,
        }
    }

    /// Generates the committed polynomial values: the values of every
    /// committed column, in source order.
    ///
    /// An input that cannot be worked on is rejected with the reason. Else
    /// the constraint system is split and solved; what comes back is a
    /// witness, or the row and the identity or column on which no solution
    /// was found.
    ///
    /// How the solvers come to the result, `solved_as` says: the rows are
    /// solved in increasing order, each in passes over the identities and
    /// the queries, and the finished work is judged. An error is raised by
    /// a solver that has stopped as `stopped_solver` says: a cell is
    /// reported as stuck only where nothing more follows on its row.
    ///
    /// Where values were supplied for every column that has a query, nothing
    /// is asked, and all that the solvers find follows from the identities.
    /// If the input has a solution at all, then it is the one returned, or a
    /// cell is reported as stuck; no identity is reported as contradicted and
    /// no bound as violated. Where values were supplied for all columns
    /// nothing is to be solved: the supplied values are returned exactly if
    /// they are a witness.
    pub fn generate(self) -> (r: Result<Vec<(&'a str, Vec<u64>)>, WitgenError>)
        ensures
            match r {
                Ok(columns) => {
                    &&& valid_setup(
                        *self.analyzed,
                        self.degree,
                        self.fixed_col_values@,
                        self.external_witness_values@,
                    )
                    &&& is_witness(
                        *self.analyzed,
                        self.degree,
                        self.fixed_col_values@,
                        self.external_witness_values@,
                        columns@,
                    )
                },
                Err(WitgenError::Setup(e)) => {
                    &&& !valid_setup(
                        *self.analyzed,
                        self.degree,
                        self.fixed_col_values@,
                        self.external_witness_values@,
                    )
                    &&& rejected_for(
                        e,
                        *self.analyzed,
                        self.degree,
                        self.fixed_col_values@,
                        self.external_witness_values@,
                    )
                },
                Err(WitgenError::Solving(e)) => {
                    &&& valid_setup(
                        *self.analyzed,
                        self.degree,
                        self.fixed_col_values@,
                        self.external_witness_values@,
                    )
                    &&& located(
                        e,
                        *self.analyzed,
                        self.degree,
                        self.fixed_col_values@,
                        self.external_witness_values@,
                    )
                },
            },
            match r {
                Ok(columns) => exists|
                    start: Generator<'a>,
                    split: Seq<Machine<'a>>,
                    retained: Seq<bool>,
                    end: Generator<'a>,
                    machines: Seq<Machine<'a>>,
                | #[trigger]
                    solved_as(
                        start,
                        split,
                        retained,
                        end,
                        machines,
                        *self.analyzed,
                        self.degree,
                        self.fixed_col_values@,
                        self.external_witness_values@,
                        Ok(()),
                    ) && output_trace(
                        *self.analyzed,
                        self.degree,
                        self.fixed_col_values@,
                        columns@,
                    ).witness == zero_filled(end.rows@),
                Err(WitgenError::Solving(e)) => exists|
                    start: Generator<'a>,
                    split: Seq<Machine<'a>>,
                    retained: Seq<bool>,
                    end: Generator<'a>,
                    machines: Seq<Machine<'a>>,
                | #[trigger]
                    solved_as(
                        start,
                        split,
                        retained,
                        end,
                        machines,
                        *self.analyzed,
                        self.degree,
                        self.fixed_col_values@,
                        self.external_witness_values@,
                        Err(e),
                    ),
                Err(WitgenError::Setup(_)) => true,
            },
            match r {
                Err(WitgenError::Solving(e)) => exists|g: Generator<'a>| #[trigger]
                    stopped_solver(
                        g,
                        *self.analyzed,
                        self.degree,
                        self.fixed_col_values@,
                        self.external_witness_values@,
                        e,
                    ),
                _ => true,
            },
            no_open_query(*self.analyzed, self.external_witness_values@) ==> forall|t: Trace| #[trigger]
                solves_input(
                    t,
                    *self.analyzed,
                    self.degree,
                    self.fixed_col_values@,
                    self.external_witness_values@,
                ) ==> match r {
                    Ok(columns) => t == output_trace(
                        *self.analyzed,
                        self.degree,
                        self.fixed_col_values@,
                        columns@,
                    ),
                    Err(WitgenError::Solving(e)) => e is Stuck,
                    Err(WitgenError::Setup(_)) => true,
                },
            all_supplied(*self.analyzed, self.external_witness_values@) ==> (r is Ok <==> {
                &&& valid_setup(
                    *self.analyzed,
                    self.degree,
                    self.fixed_col_values@,
                    self.external_witness_values@,
                )
                &&& supplied_trace(
                    *self.analyzed,
                    self.degree,
                    self.fixed_col_values@,
                    self.external_witness_values@,
                ).satisfies(self.analyzed.identities@)
                &&& bounded(
                    supplied_trace(
                        *self.analyzed,
                        self.degree,
                        self.fixed_col_values@,
                        self.external_witness_values@,
                    ),
                    self.analyzed.identities@,
                )
            }),
    {
        if degree_is_zero(self.degree) {
            return Err(WitgenError::Setup(ConfigError::ZeroDegree));
        }
        let analyzed: &'a Analyzed = self.analyzed;
        let ghost supplied = self.external_witness_values@;
        let fixed = match FixedData::try_new(
            analyzed,
            self.degree,
            self.fixed_col_values,
            self.external_witness_values,
        ) {
            Ok(fixed) => fixed,
            Err(e) => {
                return Err(WitgenError::Setup(e));
            },
        };
        let identities: &Vec<crate::analyzed::Identity> = &analyzed.identities;
        let (
            constraints,
            // Removes identities like X * (X - 1) = 0 or { A } in { BYTES }
            // These are already captured in the range constraints.
            retained_identities,
        ) = determine_global_constraints(&fixed, identities);
        let ExtractionOutput { fixed_lookup, machines, base_identities, base_witnesses } =
            split_out_machines(&fixed, identities, &retained_identities, &constraints);
        let ghost split = machines@;
        let mut mutable_state = MutableState {
            fixed_lookup,
            machines,
            query_callback: self.query_callback,
        };
        let mut generator = Generator::new(
            &fixed,
            identities,
            base_identities,
            base_witnesses,
            &constraints,
        );
        let ghost start = generator;
        proof {
            lemma_machines_fit(
                generator,
                split,
                &fixed,
                identities,
                &constraints,
                retained_identities@,
            );
            lemma_start(
                start,
                split,
                &fixed,
                identities,
                &constraints,
                retained_identities@,
                *analyzed,
                self.degree,
                self.fixed_col_values@,
                supplied,
            );
        }

        match generator.run(&mut mutable_state) {
            Ok(()) => {},
            Err(e) => {
                proof {
                    let t = supplied_trace(
                        *analyzed,
                        self.degree,
                        self.fixed_col_values@,
                        supplied,
                    );
                    if generator.failed_with(e) && generator.machines_done(
                        mutable_state.machines@,
                    ) {
                        lemma_machines_fit(
                            generator,
                            split,
                            &fixed,
                            identities,
                            &constraints,
                            retained_identities@,
                        );
                        lemma_main_inputs(
                            generator,
                            mutable_state.machines@,
                            split,
                            retained_identities@,
                        );
                        lemma_failure_located(
                            generator,
                            start,
                            e,
                            &fixed,
                            identities,
                            &constraints,
                            retained_identities@,
                        );
                        if all_supplied(*analyzed, supplied) {
                            lemma_supplies(&fixed, *analyzed, self.degree, self.fixed_col_values@, supplied);
                            lemma_main_refutes(
                                generator,
                                mutable_state.machines@,
                                start,
                                split,
                                e,
                                &fixed,
                                identities,
                                &constraints,
                                retained_identities@,
                                t,
                            );
                            lemma_bounded(
                                &fixed,
                                identities@,
                                constraints.witness_constraints@,
                                t,
                            );
                        }
                    } else {
                        let k = choose|k: int|
                            0 <= k < mutable_state.machines@.len() && (
                            #[trigger] mutable_state.machines@[k]).generator().failed_with(e);
                        let m = mutable_state.machines@[k].generator();
                        assert(m.same_task(&split[k].generator()));
                        assert(machine_ok(
                            split[k].generator(),
                            &fixed,
                            identities,
                            retained_identities@,
                            &constraints,
                        ));
                        lemma_machine_inputs(m);
                        lemma_failure_located(
                            m,
                            split[k].generator(),
                            e,
                            &fixed,
                            identities,
                            &constraints,
                            retained_identities@,
                        );
                        if all_supplied(*analyzed, supplied) {
                            lemma_supplies(&fixed, *analyzed, self.degree, self.fixed_col_values@, supplied);
                            lemma_machine_refutes(
                                m,
                                split[k].generator(),
                                e,
                                &fixed,
                                identities,
                                &constraints,
                                retained_identities@,
                                t,
                            );
                            lemma_bounded(
                                &fixed,
                                identities@,
                                constraints.witness_constraints@,
                                t,
                            );
                        }
                    }
                    lemma_located(
                        e,
                        &fixed,
                        *analyzed,
                        self.degree,
                        self.fixed_col_values@,
                        supplied,
                        constraints.witness_constraints@,
                    );
                    assert(split_of(
                        start,
                        split,
                        retained_identities@,
                        &fixed,
                        identities,
                        &constraints,
                    ));
                    let g = if generator.failed_with(e) && generator.stopped_by(e)
                        && generator.machines_done(mutable_state.machines@) {
                        generator
                    } else {
                        let k = choose|k: int|
                            0 <= k < mutable_state.machines@.len() && (
                            #[trigger] mutable_state.machines@[k]).generator().failed_with(e)
                                && mutable_state.machines@[k].generator().stopped_by(e);
                        assert(mutable_state.machines@[k].generator().same_task(
                            &split[k].generator(),
                        ));
                        mutable_state.machines@[k].generator()
                    };
                    assert(g.same_system(&start));
                    assert(solver_for(
                        g,
                        *analyzed,
                        self.degree,
                        self.fixed_col_values@,
                        supplied,
                    ));
                    if no_open_query(*analyzed, supplied) {
                        assert forall|u: Trace| #[trigger]
                            solves_input(
                                u,
                                *analyzed,
                                self.degree,
                                self.fixed_col_values@,
                                supplied,
                            ) implies crate::rows::completes(u, g.fixed, g.rows@) by {
                            assert(start.system_solution(split, u));
                            assert(generator.system_completes(mutable_state.machines@, u));
                        }
                    }
                    assert(stopped_solver(
                        g,
                        *analyzed,
                        self.degree,
                        self.fixed_col_values@,
                        supplied,
                        e,
                    ));
                    assert(solved_as(
                        start,
                        split,
                        retained_identities@,
                        generator,
                        mutable_state.machines@,
                        *analyzed,
                        self.degree,
                        self.fixed_col_values@,
                        supplied,
                        Err(e),
                    ));
                    if no_open_query(*analyzed, supplied) {
                        assert forall|u: Trace| #[trigger]
                            solves_input(
                                u,
                                *analyzed,
                                self.degree,
                                self.fixed_col_values@,
                                supplied,
                            ) implies e is Stuck by {
                            assert(start.system_solution(split, u));
                            assert(generator.system_completes(mutable_state.machines@, u));
                            if generator.failed_with(e) && generator.machines_done(
                                mutable_state.machines@,
                            ) {
                                assert(generator.solution(u));
                                lemma_solution_refutes(generator, e, u);
                            } else {
                                let k = choose|k: int|
                                    0 <= k < mutable_state.machines@.len() && (
                                    #[trigger] mutable_state.machines@[k]).generator().failed_with(e);
                                let m = mutable_state.machines@[k].generator();
                                assert(m.same_task(&split[k].generator()));
                                assert(split[k].generator().solution(u));
                                assert(m.solution(u));
                                lemma_solution_refutes(m, e, u);
                            }
                        }
                    }
                }
                return Err(WitgenError::Solving(e));
            },
        }
        let ghost witness = zero_filled(generator.rows@);
        proof {
            lemma_all_solved(
                generator,
                mutable_state.machines@,
                start,
                split,
                &fixed,
                identities,
                &constraints,
                retained_identities@,
            );
            lemma_solution(
                generator,
                mutable_state.machines@,
                &fixed,
                identities,
                &constraints,
                retained_identities@,
            );
        }

        // Get columns from machines
        let mut columns: Vec<(&str, Vec<u64>)> = Vec::new();
        let count: usize = mutable_state.machines.len();
        let mut k: usize = 0;
        while k < count
            invariant
                all_solved(
                    generator,
                    mutable_state.machines@,
                    &fixed,
                    identities,
                    &constraints,
                    retained_identities@,
                ),
                witness == zero_filled(generator.rows@),
                count == mutable_state.machines@.len(),
                k <= count,
                entries_sound(column_pairs(columns@), &fixed, witness),
                forall|j: int, c: int|
                    0 <= j < k && 0 <= c < fixed.witness_count() && (
                    #[trigger] mutable_state.machines@[j]).generator().witnesses@[c]
                        ==> #[trigger] has_entry(column_pairs(columns@), &fixed, witness, c),
            decreases count - k,
        {
            let ghost before = column_pairs(columns@);
            let ghost m = mutable_state.machines@[k as int].generator();
            let taken: Vec<(&str, Vec<u64>)> = mutable_state.machines[k].take_witness_col_values();
            append_columns(&mut columns, &taken);
            proof {
                let added = column_pairs(taken@);
                let now = column_pairs(columns@);
                lemma_owned_values(&fixed, m.witnesses@, m.rows@, m.witnesses@.len() as int);
                assert forall|c: int|
                    0 <= c < fixed.witness_count() && m.witnesses@[c] implies #[trigger] entry_of(
                    &fixed,
                    zero_filled(m.rows@),
                    c,
                ) == entry_of(&fixed, witness, c) by {
                    assert(generator.rows@[c] == m.rows@[c]);
                    assert(zero_filled(generator.rows@)[c] =~= zero_filled(m.rows@)[c]);
                }
                assert forall|j: int| 0 <= j < now.len() implies is_entry(
                    #[trigger] now[j],
                    &fixed,
                    witness,
                ) by {
                    if j < before.len() {
                        assert(now[j] == before[j]);
                    } else {
                        let x = added[j - before.len()];
                        assert(now[j] == x);
                        assert(owned_entry(
                            x,
                            &fixed,
                            m.witnesses@,
                            zero_filled(m.rows@),
                            m.witnesses@.len() as int,
                        ));
                        let c = choose|c: int|
                            0 <= c < m.witnesses@.len() && m.witnesses@[c] && x
                                == #[trigger] entry_of(&fixed, zero_filled(m.rows@), c);
                        assert(x == entry_of(&fixed, witness, c));
                    }
                }
                assert forall|j: int, c: int|
                    0 <= j < k + 1 && 0 <= c < fixed.witness_count() && (
                    #[trigger] mutable_state.machines@[j]).generator().witnesses@[c] implies #[trigger] has_entry(
                    now,
                    &fixed,
                    witness,
                    c,
                ) by {
                    if j < k {
                        assert(has_entry(before, &fixed, witness, c));
                        let e = choose|e: int|
                            0 <= e < before.len() && #[trigger] before[e] == entry_of(
                                &fixed,
                                witness,
                                c,
                            );
                        assert(now[e] == before[e]);
                    } else {
                        assert(has_entry(added, &fixed, zero_filled(m.rows@), c));
                        let e = choose|e: int|
                            0 <= e < added.len() && #[trigger] added[e] == entry_of(
                                &fixed,
                                zero_filled(m.rows@),
                                c,
                            );
                        assert(now[before.len() + e] == added[e]);
                    }
                }
            }
            k += 1;
        }
        let ghost before = column_pairs(columns@);
        let main_columns: Vec<(&str, Vec<u64>)> = generator.take_witness_col_values();
        append_columns(&mut columns, &main_columns);
        proof {
            let added = column_pairs(main_columns@);
            let now = column_pairs(columns@);
            lemma_owned_values(
                &fixed,
                generator.witnesses@,
                generator.rows@,
                generator.witnesses@.len() as int,
            );
            assert forall|j: int| 0 <= j < now.len() implies is_entry(
                #[trigger] now[j],
                &fixed,
                witness,
            ) by {
                if j < before.len() {
                    assert(now[j] == before[j]);
                } else {
                    let x = added[j - before.len()];
                    assert(now[j] == x);
                    assert(owned_entry(
                        x,
                        &fixed,
                        generator.witnesses@,
                        witness,
                        generator.witnesses@.len() as int,
                    ));
                }
            }
            assert forall|c: int| 0 <= c < fixed.witness_count() implies #[trigger] has_entry(
                now,
                &fixed,
                witness,
                c,
            ) by {
                if generator.witnesses@[c] {
                    assert(has_entry(added, &fixed, witness, c));
                    let e = choose|e: int|
                        0 <= e < added.len() && #[trigger] added[e] == entry_of(
                            &fixed,
                            witness,
                            c,
                        );
                    assert(now[before.len() + e] == added[e]);
                } else {
                    assert(crate::machines::machine_extractor::machine_owns(
                        mutable_state.machines@,
                        c,
                    ));
                    let j = choose|j: int|
                        0 <= j < mutable_state.machines@.len() && (
                        #[trigger] mutable_state.machines@[j]).generator().witnesses@[c];
                    assert(has_entry(before, &fixed, witness, c));
                    let e = choose|e: int|
                        0 <= e < before.len() && #[trigger] before[e] == entry_of(
                            &fixed,
                            witness,
                            c,
                        );
                    assert(now[e] == before[e]);
                }
            }
        }

        // Done this way, because:
        // 1. The keys need to be string references of the right lifetime.
        // 2. The order needs to be the the order of declaration.
        let committed = analyzed.committed_polys_in_source_order();
        let mut result: Vec<(&'a str, Vec<u64>)> = Vec::new();
        let mut i: usize = 0;
        while i < committed.len()
            invariant
                fixed.wf(),
                fixed.built_from(*analyzed, self.degree, self.fixed_col_values@, supplied),
                names_distinct(analyzed.committed@, analyzed.committed@.len() as int),
                committed == &analyzed.committed,
                witness.len() == fixed.witness_count(),
                entries_sound(column_pairs(columns@), &fixed, witness),
                forall|c: int|
                    0 <= c < fixed.witness_count() ==> #[trigger] has_entry(
                        column_pairs(columns@),
                        &fixed,
                        witness,
                        c,
                    ),
                i <= analyzed.committed@.len(),
                result@.len() == i,
                forall|j: int|
                    0 <= j < i ==> (#[trigger] result@[j]).0@
                        == analyzed.committed@[j].0.absolute_name@ && result@[j].1@ == witness[j],
            decreases committed.len() - i,
        {
            let name: &'a str = committed[i].0.absolute_name.as_str();
            let ghost entries = column_pairs(columns@);
            match find_column(&columns, name) {
                Some(j) => {
                    proof {
                        assert(is_entry(entries[j as int], &fixed, witness));
                        let c = choose|c: int|
                            0 <= c < fixed.witness_count() && entries[j as int]
                                == #[trigger] entry_of(&fixed, witness, c);
                        assert(fixed.witness_cols.values@[c].made_of(
                            c,
                            analyzed.committed@[c].0.absolute_name@,
                            analyzed.committed@[c].1,
                            external_for(supplied, analyzed.committed@[c].0.absolute_name@),
                        ));
                        assert(analyzed.committed@[c].0.absolute_name@ == name@);
                        if c < i {
                            assert(analyzed.committed@[c].0.absolute_name@
                                != analyzed.committed@[i as int].0.absolute_name@);
                        }
                        if i < c {
                            assert(analyzed.committed@[i as int].0.absolute_name@
                                != analyzed.committed@[c].0.absolute_name@);
                        }
                        assert(c == i);
                    }
                    let column: Vec<u64> = copy_values(&columns[j].1);
                    result.push((name, column));
                },
                None => {
                    proof {
                        assert(has_entry(entries, &fixed, witness, i as int));
                        let e = choose|e: int|
                            0 <= e < entries.len() && #[trigger] entries[e] == entry_of(
                                &fixed,
                                witness,
                                i as int,
                            );
                        assert(fixed.witness_cols.values@[i as int].made_of(
                            i as int,
                            analyzed.committed@[i as int].0.absolute_name@,
                            analyzed.committed@[i as int].1,
                            external_for(supplied, analyzed.committed@[i as int].0.absolute_name@),
                        ));
                        assert(columns@[e].0@ == name@);
                        assert(false);
                    }
                },
            }
            i += 1;
        }
        proof {
            let t = output_trace(*analyzed, self.degree, self.fixed_col_values@, result@);
            let solved = trace_of(&fixed, generator.rows@);
            assert(t.witness =~= solved.witness);
            assert(t.fixed =~= solved.fixed) by {
                assert forall|c: int| 0 <= c < t.fixed.len() implies t.fixed[c]
                    == solved.fixed[c] by {
                    assert(fixed.fixed_cols.values@[c].values@ == self.fixed_col_values@[c].1@);
                }
            }
            assert(t == solved);
            assert(split_of(
                start,
                split,
                retained_identities@,
                &fixed,
                identities,
                &constraints,
            ));
            assert(solved_as(
                start,
                split,
                retained_identities@,
                generator,
                mutable_state.machines@,
                *analyzed,
                self.degree,
                self.fixed_col_values@,
                supplied,
                Ok(()),
            ));
            assert(t.witness == zero_filled(generator.rows@));
            lemma_bounded(&fixed, identities@, constraints.witness_constraints@, t);
            if no_open_query(*analyzed, supplied) {
                assert forall|u: Trace| #[trigger]
                    solves_input(
                        u,
                        *analyzed,
                        self.degree,
                        self.fixed_col_values@,
                        supplied,
                    ) implies u == t by {
                    assert(start.system_solution(split, u));
                    assert(generator.system_completes(mutable_state.machines@, u));
                    lemma_known_solution(
                        generator,
                        mutable_state.machines@,
                        &fixed,
                        identities,
                        &constraints,
                        retained_identities@,
                        u,
                    );
                }
            }
            assert forall|j: int| 0 <= j < result@.len() implies match external_for(
                supplied,
                analyzed.committed@[j].0.absolute_name@,
            ) {
                Some(v) => (#[trigger] result@[j]).1@ == v,
                None => true,
            } by {
                assert(fixed.witness_cols.values@[j].made_of(
                    j,
                    analyzed.committed@[j].0.absolute_name@,
                    analyzed.committed@[j].1,
                    external_for(supplied, analyzed.committed@[j].0.absolute_name@),
                ));
                if external_for(supplied, analyzed.committed@[j].0.absolute_name@) is Some {
                    lemma_supplied_column(
                        generator,
                        mutable_state.machines@,
                        start,
                        split,
                        &fixed,
                        identities,
                        &constraints,
                        retained_identities@,
                        j,
                    );
                }
            }
            assert forall|j: int| 0 <= j < result@.len() implies (#[trigger] result@[j]).1@.len()
                == self.degree by {
                assert(generator.rows@[j].len() == fixed.degree);
            }
            assert forall|j: int, i: int|
                0 <= j < supplied.len() && 0 <= i < result@.len() && (#[trigger] result@[i]).0@ == (
                #[trigger] supplied[j]).0@ implies result@[i].1@ == supplied[j].1@ by {
                lemma_supplied_once(supplied, j);
            }
            if all_supplied(*analyzed, supplied) {
                let given = supplied_trace(
                    *analyzed,
                    self.degree,
                    self.fixed_col_values@,
                    supplied,
                );
                assert(given.witness =~= t.witness) by {
                    assert forall|j: int| 0 <= j < t.witness.len() implies given.witness[j]
                        == t.witness[j] by {
                        assert(result@[j].1@ == external_for(
                            supplied,
                            analyzed.committed@[j].0.absolute_name@,
                        )->0);
                    }
                }
                assert(given == t);
            }
        }
        Ok(result)
    }
}

} // verus!
