//! Bounds on the values of a column.

use vstd::prelude::*;

verus! {

/// The values of a column are known to lie below `limit`. A column of bits
/// has the limit 2, a column of bytes the limit 256.
#[derive(Clone, Copy, Debug, PartialEq, Eq, Structural)]
pub struct RangeConstraint {
    pub limit: u64,
}

impl RangeConstraint {
    /// Whether the constraint admits the value.
    pub open spec fn allows(self, value: u64) -> bool {
        value < self.limit
    }

    /// The constraint that admits the values below the limit.
    pub fn below(limit: u64) -> (r: RangeConstraint)
        ensures
            r.limit == limit,
    {
        RangeConstraint { limit }
    }

    pub fn check(&self, value: u64) -> (r: bool)
        ensures
            r == self.allows(value),
    {
        value < self.limit
    }

    /// The constraint that admits what both constraints admit.
    pub fn conjunction(&self, other: &RangeConstraint) -> (r: RangeConstraint)
        ensures
            forall|v: u64| r.allows(v) == (self.allows(v) && other.allows(v)),
            r.limit == if self.limit <= other.limit {
                self.limit
            } else {
                other.limit
            },
    {
        if self.limit <= other.limit {
            *self
        } else {
            *other
        }
    }
}

} // verus!
