//! The conditions under which witness generation can start, and the checks
//! that establish them.

use vstd::prelude::*;
use crate::analyzed::{FunctionValueDefinition, Polynomial};
use crate::field::Field;

verus! {

/// Why a setup was rejected before any row was solved.
#[derive(Clone, Copy, Debug, PartialEq, Eq, Structural)]
pub enum ConfigError {
    /// The trace has no rows.
    ZeroDegree,
    /// The number of rows cannot be addressed on this machine.
    DegreeTooLarge,
    /// The modulus is below two.
    InvalidField,
    /// A committed column is declared as an array.
    CommittedArray { column: usize },
    /// A committed column's identifier differs from its position.
    ColumnIdMismatch { column: usize },
    /// A committed column has the name of an earlier one.
    DuplicateColumnName { column: usize },
    /// The values supplied for a witness column are not one per row.
    ExternalWitnessLength { column: usize },
    /// A value supplied for a witness column is no field element.
    ExternalWitnessValue { column: usize, row: usize },
    /// Values were supplied under a name that no committed column has.
    UnknownExternalWitness { index: usize },
    /// Values were supplied under a name under which an earlier entry supplies values.
    ExternalWitnessTwice { index: usize },
    /// The values of a fixed column are not one per row.
    FixedColumnLength { column: usize },
    /// A value of a fixed column is no field element.
    FixedColumnValue { column: usize, row: usize },
    /// The query of a committed column refers to a column that does not exist.
    MalformedQuery { column: usize },
    /// An identity refers to a column that does not exist, or looks up tuples of different sizes.
    MalformedIdentity { identity: usize },
}

pub type Declarations = Seq<(Polynomial, Option<FunctionValueDefinition>)>;

/// Every value of the sequence is a field element.
pub open spec fn in_field(values: Seq<u64>, modulus: u64) -> bool {
    forall|r: int| 0 <= r < values.len() ==> #[trigger] values[r] < modulus
}

/// The values last supplied under a name, if any were.
pub open spec fn external_for(externals: Seq<(&str, Vec<u64>)>, name: Seq<char>) -> Option<
    Seq<u64>,
>
    decreases externals.len(),
{
    if externals.len() == 0 {
        None
    } else if externals.last().0@ == name {
        Some(externals.last().1@)
    } else {
        external_for(externals.drop_last(), name)
    }
}

/// No two of the first `n` entries supply values under the same name.
pub open spec fn supplied_once(externals: Seq<(&str, Vec<u64>)>, n: int) -> bool {
    forall|k: int, j: int|
        0 <= k < j < n && j < externals.len() ==> (#[trigger] externals[k]).0@ != (
        #[trigger] externals[j]).0@
}

/// Where no name is supplied twice, the values that count for the name of
/// an entry are the values of that entry.
pub proof fn lemma_supplied_once(externals: Seq<(&str, Vec<u64>)>, j: int)
    requires
        supplied_once(externals, externals.len() as int),
        0 <= j < externals.len(),
    ensures
        external_for(externals, externals[j].0@) == Some(externals[j].1@),
    decreases externals.len(),
{
    let last = externals.len() - 1;
    if j < last {
        let rest = externals.drop_last();
        assert(externals[j].0@ != externals[last].0@);
        assert(rest[j] == externals[j]);
        assert forall|a: int, b: int| 0 <= a < b < rest.len() implies (#[trigger] rest[a]).0@ != (
        #[trigger] rest[b]).0@ by {
            assert(rest[a] == externals[a] && rest[b] == externals[b]);
        }
        lemma_supplied_once(rest, j);
    }
}

/// The position of the committed column with the given name, if there is one.
pub open spec fn declares(committed: Declarations, name: Seq<char>) -> bool {
    exists|i: int| 0 <= i < committed.len() && (#[trigger] committed[i]).0.absolute_name@ == name
}

/// No two of the first `n` committed columns have the same name.
pub open spec fn names_distinct(committed: Declarations, n: int) -> bool {
    forall|i: int, j: int|
        0 <= i < j < n && j < committed.len() ==> (#[trigger] committed[i]).0.absolute_name@ != (
        #[trigger] committed[j]).0.absolute_name@
}

/// The first index at which a value is no field element, if there is one.
pub fn first_outside_field(field: &Field, values: &Vec<u64>) -> (r: Option<usize>)
    ensures
        match r {
            Some(k) => k < values@.len() && values@[k as int] >= field.modulus && in_field(
                values@.take(k as int),
                field.modulus,
            ),
            None => in_field(values@, field.modulus),
        },
{
    let mut k: usize = 0;
    while k < values.len()
        invariant
            k <= values.len(),
            forall|r: int| 0 <= r < k ==> #[trigger] values@[r] < field.modulus,
        decreases values.len() - k,
    {
        if values[k] >= field.modulus {
            return Some(k);
        }
        k += 1;
    }
    None
}

/// The index of the last entry supplied under the given name, if there is one.
pub fn find_external(externals: &Vec<(&str, Vec<u64>)>, name: &str) -> (r: Option<usize>)
    ensures
        match r {
            Some(j) => j < externals@.len() && external_for(externals@, name@) == Some(
                externals@[j as int].1@,
            ),
            None => external_for(externals@, name@) is None,
        },
{
    let mut j: usize = externals.len();
    proof {
        assert(externals@.take(j as int) == externals@);
    }
    while j > 0
        invariant
            j <= externals.len(),
            external_for(externals@, name@) == external_for(externals@.take(j as int), name@),
        decreases j,
    {
        proof {
            let s = externals@.take(j as int);
            assert(s.last() == externals@[j as int - 1]);
            assert(s.drop_last() == externals@.take(j as int - 1));
        }
        if str_equal(externals[j - 1].0, name) {
            return Some(j - 1);
        }
        j -= 1;
    }
    proof {
        assert(externals@.take(0).len() == 0);
    }
    None
}

/// Whether two strings hold the same characters.
pub fn str_equal(a: &str, b: &str) -> (r: bool)
    ensures
        r == (a@ == b@),
{
    let x: String = a.to_owned();
    let y: String = b.to_owned();
    x == y
}

/// The position of the committed column with the given name among the first
/// `n`, if there is one.
pub fn find_declared(
    committed: &Vec<(Polynomial, Option<FunctionValueDefinition>)>,
    n: usize,
    name: &str,
) -> (r: Option<usize>)
    requires
        n <= committed@.len(),
    ensures
        match r {
            Some(i) => i < n && committed@[i as int].0.absolute_name@ == name@ && forall|k: int|
                0 <= k < i ==> (#[trigger] committed@[k]).0.absolute_name@ != name@,
            None => forall|i: int| 0 <= i < n ==> (#[trigger] committed@[i]).0.absolute_name@ != name@,
        },
{
    let mut i: usize = 0;
    while i < n
        invariant
            i <= n,
            n <= committed@.len(),
            forall|k: int| 0 <= k < i ==> (#[trigger] committed@[k]).0.absolute_name@ != name@,
        decreases n - i,
    {
        if str_equal(committed[i].0.absolute_name.as_str(), name) {
            return Some(i);
        }
        i += 1;
    }
    None
}

/// The index of the first of the first `n` entries that supplies values
/// under the given name, if there is one.
pub fn find_supplied(externals: &Vec<(&str, Vec<u64>)>, n: usize, name: &str) -> (r: Option<usize>)
    requires
        n <= externals@.len(),
    ensures
        match r {
            Some(k) => k < n && externals@[k as int].0@ == name@ && forall|j: int|
                0 <= j < k ==> (#[trigger] externals@[j]).0@ != name@,
            None => forall|j: int| 0 <= j < n ==> (#[trigger] externals@[j]).0@ != name@,
        },
{
    let mut k: usize = 0;
    while k < n
        invariant
            k <= n,
            n <= externals@.len(),
            forall|j: int| 0 <= j < k ==> (#[trigger] externals@[j]).0@ != name@,
        decreases n - k,
    {
        if str_equal(externals[k].0, name) {
            return Some(k);
        }
        k += 1;
    }
    None
}

/// A copy of a vector of numbers.
pub fn copy_values(values: &Vec<u64>) -> (r: Vec<u64>)
    ensures
        r@ == values@,
{
    let mut r: Vec<u64> = Vec::new();
    let mut k: usize = 0;
    while k < values.len()
        invariant
            k <= values.len(),
            r@ == values@.take(k as int),
        decreases values.len() - k,
    {
        r.push(values[k]);
        proof {
            assert(values@.take(k as int + 1) == values@.take(k as int).push(values@[k as int]));
        }
        k += 1;
    }
    proof {
        assert(values@.take(k as int) == values@);
    }
    r
}

} // verus!
