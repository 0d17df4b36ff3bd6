//! Maps from the columns of one kind to values, indexed by column identifier.

use vstd::prelude::*;
use crate::analyzed::{PolyID, PolynomialType};

verus! {

/// One value for each fixed column.
pub struct FixedColumnMap<V> {
    pub values: Vec<V>,
}

/// One value for each witness column.
pub struct WitnessColumnMap<V> {
    pub values: Vec<V>,
}

impl<V> FixedColumnMap<V> {
    /// Whether the identifier names a column of this map.
    pub open spec fn has(&self, poly_id: PolyID) -> bool {
        poly_id.ptype == PolynomialType::Constant && poly_id.id < self.values@.len()
    }

    /// The map that holds the given values in the order of the columns.
    pub fn from(values: Vec<V>) -> (r: Self)
        ensures
            r.values == values,
    {
        FixedColumnMap { values }
    }

    pub fn len(&self) -> (r: usize)
        ensures
            r == self.values@.len(),
    {
        self.values.len()
    }

    pub fn get(&self, poly_id: &PolyID) -> (r: &V)
        requires
            self.has(*poly_id),
        ensures
            *r == self.values@[poly_id.id as int],
    {
        let n: usize = self.values.len();
        assert(poly_id.id < n);
        &self.values[poly_id.id as usize]
    }
}

impl<V> WitnessColumnMap<V> {
    /// Whether the identifier names a column of this map.
    pub open spec fn has(&self, poly_id: PolyID) -> bool {
        poly_id.ptype == PolynomialType::Committed && poly_id.id < self.values@.len()
    }

    /// The map that holds the given values in the order of the columns.
    pub fn from(values: Vec<V>) -> (r: Self)
        ensures
            r.values == values,
    {
        WitnessColumnMap { values }
    }

    /// The map that gives each of `size` columns a clone of the initial value.
    pub fn new(initial_value: V, size: usize) -> (r: Self) where V: Clone
        ensures
            r.values@.len() == size,
            forall|i: int| 0 <= i < size ==> cloned(initial_value, #[trigger] r.values@[i]),
    {
        WitnessColumnMap { values: vec![initial_value; size] }
    }

    pub fn len(&self) -> (r: usize)
        ensures
            r == self.values@.len(),
    {
        self.values.len()
    }

    pub fn get(&self, poly_id: &PolyID) -> (r: &V)
        requires
            self.has(*poly_id),
        ensures
            *r == self.values@[poly_id.id as int],
    {
        let n: usize = self.values.len();
        assert(poly_id.id < n);
        &self.values[poly_id.id as usize]
    }
}

} // verus!
