//! The subsystems that solve parts of the constraint system on their own.
//!
//! A machine owns some of the witness columns and the identities that
//! mention only these. It fills its columns without knowing of the rest of
//! the system, and hands them out when it is done.

use vstd::prelude::*;
use crate::eval_result::EvalError;
use crate::generator::{column_pairs, columns_known, others_unchanged, owned_values, Generator};
use crate::machines::fixed_lookup::FixedLookup;
use crate::rows::extends;
use crate::QueryCallback;

pub mod fixed_lookup;
pub mod machine_extractor;

verus! {

/// The kinds of machines.
pub enum Machine<'a> {
    /// A machine that solves its identities row by row, as the main solver does.
    Vm(Generator<'a>),
}

impl<'a> Machine<'a> {
    /// The solver that does the machine's work.
    pub open spec fn generator(&self) -> Generator<'a> {
        match *self {
            Machine::Vm(g) => g,
        }
    }

    /// Fills the machine's columns on all rows.
    pub fn run<Q: QueryCallback>(
        &mut self,
        fixed_lookup: &mut FixedLookup,
        query_callback: &mut Q,
    ) -> (r: Result<(), EvalError>)
        requires
            old(self).generator().wf(),
        ensures
            final(self).generator().wf(),
            final(self).generator().same_task(&old(self).generator()),
            extends(final(self).generator().rows@, old(self).generator().rows@),
            others_unchanged(
                old(self).generator().witnesses@,
                final(self).generator().rows@,
                old(self).generator().rows@,
            ),
            r is Ok <==> final(self).generator().certified(),
            match r {
                Ok(()) => final(self).generator().solved(),
                Err(e) => final(self).generator().failed_with(e)
                    && final(self).generator().stopped_by(e),
            },
            final(self).generator().ran_from(old(self).generator().rows@, r),
            old(self).generator().quiet() ==> forall|t: crate::trace::Trace| #[trigger]
                old(self).generator().solution(t) ==> crate::rows::completes(
                    t,
                    final(self).generator().fixed,
                    final(self).generator().rows@,
                ),
    {
        match self {
            Machine::Vm(g) => g.run_rows(fixed_lookup, query_callback),
        }
    }

    /// The names and values of the machine's columns, in the order of the columns.
    pub fn take_witness_col_values(&self) -> (r: Vec<(&'a str, Vec<u64>)>)
        requires
            self.generator().wf(),
            columns_known(self.generator().witnesses@, self.generator().rows@),
        ensures
            column_pairs(r@) == owned_values(
                self.generator().fixed,
                self.generator().witnesses@,
                self.generator().rows@,
                self.generator().witnesses@.len() as int,
            ),
    {
        match self {
            Machine::Vm(g) => g.take_witness_col_values(),
        }
    }
}

} // verus!
