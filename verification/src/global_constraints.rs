//! The bounds on columns that follow from the identities alone.
//!
//! Two shapes of identity say no more than that a column stays below a
//! limit: `X * (X - 1) = 0`, which makes `X` a bit, and `{ X } in { F }` where
//! the fixed column `F` holds exactly the numbers below a limit. Such an
//! identity is captured by the bound and need not be solved.

use vstd::prelude::*;
use crate::analyzed::{
    BinaryOperator,
    Expression,
    Identity,
    PolynomialType,
    SelectedExpressions,
};
use crate::machines::fixed_lookup::{fixed_column, is_fixed_reference};
use crate::range_constraints::RangeConstraint;
use crate::trace::Trace;
use crate::FixedData;

verus! {

/// The bound that was found for each witness column, if one was found.
pub struct GlobalConstraints {
    pub witness_constraints: Vec<Option<RangeConstraint>>,
}

/// The largest limit for which a fixed column is searched for all numbers below it.
pub const MAX_ENUMERATED: u64 = 65536;

/// Whether the expression is the given witness column on the current row.
pub open spec fn is_witness_cell(e: Expression, column: int) -> bool {
    match e {
        Expression::PolynomialReference(r) => !r.next && r.is_witness(column),
        _ => false,
    }
}

/// Whether the expression is `X - 1` or `1 - X` for the witness column `X`.
pub open spec fn is_bit_factor(e: Expression, column: int) -> bool {
    match e {
        Expression::BinaryOperation(l, op, r) => op == BinaryOperator::Sub && ((is_witness_cell(
            *l,
            column,
        ) && *r == Expression::Number(1)) || (*l == Expression::Number(1) && is_witness_cell(
            *r,
            column,
        ))),
        _ => false,
    }
}

/// Whether the expression is the product of the witness column `X` and `X - 1`
/// or `1 - X`, in either order.
pub open spec fn is_bit_constraint(e: Expression, column: int) -> bool {
    match e {
        Expression::BinaryOperation(l, op, r) => op == BinaryOperator::Mul && ((is_witness_cell(
            *l,
            column,
        ) && is_bit_factor(*r, column)) || (is_bit_factor(*l, column) && is_witness_cell(
            *r,
            column,
        ))),
        _ => false,
    }
}

/// Whether the number is one of the values.
pub open spec fn occurs(values: Seq<u64>, v: int) -> bool {
    exists|r: int| 0 <= r < values.len() && #[trigger] values[r] == v
}

/// The values are exactly the numbers below the limit: each value is below
/// it, and each number below it is a value.
pub open spec fn enumerates(values: Seq<u64>, limit: int) -> bool {
    &&& 0 <= limit
    &&& forall|r: int| 0 <= r < values.len() ==> #[trigger] values[r] < limit
    &&& forall|v: int| 0 <= v < limit ==> #[trigger] occurs(values, v)
}

/// Whether the lookup is `{ X } in { F }` without selectors, for the witness
/// column `X` and a fixed column `F`.
pub open spec fn is_membership(
    left: SelectedExpressions,
    right: SelectedExpressions,
    column: int,
) -> bool {
    &&& left.selector is None
    &&& right.selector is None
    &&& left.expressions@.len() == 1
    &&& right.expressions@.len() == 1
    &&& is_witness_cell(left.expressions@[0], column)
    &&& is_fixed_reference(right.expressions@[0])
}

/// Whether the identity says of the column exactly that it stays below the
/// limit, where the fixed columns hold the given values.
pub open spec fn captures_in(
    fixed_values: Seq<Seq<u64>>,
    identity: Identity,
    column: int,
    limit: int,
) -> bool {
    match identity {
        Identity::Polynomial(e) => is_bit_constraint(e, column) && limit == 2,
        Identity::Plookup(left, right) => {
            &&& is_membership(left, right, column)
            &&& limit <= MAX_ENUMERATED
            &&& enumerates(fixed_values[fixed_column(right.expressions@[0])], limit)
        },
    }
}

/// Whether the identity says of the column exactly that it stays below the limit.
pub open spec fn captures(fixed: &FixedData, identity: Identity, column: int, limit: int) -> bool {
    captures_in(fixed.fixed_values(), identity, column, limit)
}

/// The trace keeps every witness column below every limit that an
/// identity captures for it.
pub open spec fn bounded(t: Trace, identities: Seq<Identity>) -> bool {
    forall|i: int, c: int, limit: int, row: int|
        #![trigger captures_in(t.fixed, identities[i], c, limit), t.witness[c][row]]
        0 <= i < identities.len() && captures_in(t.fixed, identities[i], c, limit) && 0 <= c
            < t.witness.len() && 0 <= row < t.degree ==> t.witness[c][row] < limit
}

/// To keep the columns within the bounds that were found is to keep them
/// below every limit that an identity captures.
pub proof fn lemma_bounded(
    fixed: &FixedData,
    identities: Seq<Identity>,
    constraints: Seq<Option<RangeConstraint>>,
    t: Trace,
)
    requires
        t.fixed == fixed.fixed_values(),
        t.witness.len() == fixed.witness_count(),
        crate::analyzed::identities_wf(identities, fixed.fixed_count(), fixed.witness_count()),
        constraints_of(fixed, identities, constraints),
    ensures
        respects(t, constraints) <==> bounded(t, identities),
{
    if respects(t, constraints) {
        assert forall|i: int, c: int, limit: int, row: int|
            #![trigger captures_in(t.fixed, identities[i], c, limit), t.witness[c][row]]
            0 <= i < identities.len() && captures_in(t.fixed, identities[i], c, limit) && 0 <= c
                < t.witness.len() && 0 <= row < t.degree implies t.witness[c][row] < limit by {
            assert(captures(fixed, identities[i], c, limit));
            assert(constraints[c] is Some && constraints[c]->0.limit <= limit);
            assert(constraints[c]->0.allows(t.witness[c][row]));
        }
    }
    if bounded(t, identities) {
        assert forall|c: int, row: int|
            0 <= c < constraints.len() && 0 <= row < t.degree implies match constraints[c] {
            Some(rc) => rc.allows(#[trigger] t.witness[c][row]),
            None => true,
        } by {
            if constraints[c] is Some {
                let rc = constraints[c]->0;
                assert(bound_justified(fixed, identities, constraints, c));
                let i = choose|i: int|
                    0 <= i < identities.len() && #[trigger] captures(
                        fixed,
                        identities[i],
                        c,
                        rc.limit as int,
                    );
                assert(captures_in(t.fixed, identities[i], c, rc.limit as int));
            }
        }
    }
}

/// Whether the identity is captured by a bound on some column.
pub open spec fn captured(fixed: &FixedData, identity: Identity) -> bool {
    exists|column: int, limit: int| #[trigger] captures(fixed, identity, column, limit)
}

/// The bound of the column, if it has one, is one that an identity gives.
pub open spec fn bound_justified(
    fixed: &FixedData,
    identities: Seq<Identity>,
    constraints: Seq<Option<RangeConstraint>>,
    c: int,
) -> bool {
    match constraints[c] {
        Some(rc) => exists|i: int|
            0 <= i < identities.len() && #[trigger] captures(
                fixed,
                identities[i],
                c,
                rc.limit as int,
            ),
        None => true,
    }
}

/// The bounds are the ones that the identities give: a column has a bound
/// where an identity captures one for it, and its limit is the least that the
/// identities give.
pub open spec fn constraints_of(
    fixed: &FixedData,
    identities: Seq<Identity>,
    constraints: Seq<Option<RangeConstraint>>,
) -> bool {
    &&& constraints.len() == fixed.witness_count()
    &&& forall|c: int|
        0 <= c < constraints.len() ==> #[trigger] bound_justified(
            fixed,
            identities,
            constraints,
            c,
        )
    &&& forall|i: int, c: int, limit: int|
        0 <= i < identities.len() && 0 <= c < constraints.len() && #[trigger] captures(
            fixed,
            identities[i],
            c,
            limit,
        ) ==> constraints[c] is Some && constraints[c]->0.limit <= limit
}

/// The identities that are kept are those that no bound captures.
pub open spec fn retained_of(fixed: &FixedData, identities: Seq<Identity>, retained: Seq<bool>) -> bool {
    &&& retained.len() == identities.len()
    &&& forall|i: int|
        0 <= i < identities.len() ==> #[trigger] retained[i] == !captured(fixed, identities[i])
}

/// The trace keeps every witness column within its bound.
pub open spec fn respects(t: Trace, constraints: Seq<Option<RangeConstraint>>) -> bool {
    forall|c: int, row: int|
        0 <= c < constraints.len() && 0 <= row < t.degree ==> match constraints[c] {
            Some(rc) => rc.allows(#[trigger] t.witness[c][row]),
            None => true,
        }
}

/// An identity that a bound captures holds on every row on which the column
/// is below the limit.
pub proof fn lemma_captured_holds(
    fixed: &FixedData,
    t: Trace,
    identity: Identity,
    column: int,
    limit: int,
    row: int,
)
    requires
        fixed.wf(),
        t.wf(),
        t.fixed == fixed.fixed_values(),
        t.degree == fixed.degree,
        t.witness.len() == fixed.witness_count(),
        identity.wf(fixed.fixed_count(), fixed.witness_count()),
        captures(fixed, identity, column, limit),
        0 <= row < t.degree,
        0 <= column < t.witness.len(),
        t.witness[column][row] < limit,
    ensures
        t.holds_at(identity, row),
{
    let x = t.witness[column][row] as int;
    let m = t.modulus;
    match identity {
        Identity::Polynomial(e) => {
            reveal_with_fuel(Trace::eval, 4);
            vstd::arithmetic::div_mod::lemma_small_mod(1, m as nat);
            vstd::arithmetic::div_mod::lemma_small_mod(0, m as nat);
            assert(x == 0 || x == 1);
            match e {
                Expression::BinaryOperation(l, op, r) => {
                    let a = t.eval(*l, row);
                    let b = t.eval(*r, row);
                    if is_witness_cell(*l, column) && is_bit_factor(*r, column) {
                        assert(a == x);
                        if x == 1 {
                            assert(b == 0);
                        }
                        assert(a * b == 0) by (nonlinear_arith)
                            requires
                                a == 0 || b == 0,
                        ;
                    } else {
                        assert(b == x);
                        if x == 1 {
                            assert(a == 0);
                        }
                        assert(a * b == 0) by (nonlinear_arith)
                            requires
                                a == 0 || b == 0,
                        ;
                    }
                },
                _ => {},
            }
        },
        Identity::Plookup(left, right) => {
            let f = fixed_column(right.expressions@[0]);
            let values = fixed.fixed_values()[f];
            assert(right.expressions@[0].wf(fixed.fixed_count(), fixed.witness_count()));
            assert(fixed.fixed_cols.values@[f].values@.len() == fixed.degree);
            assert(occurs(values, x));
            let right_row = choose|r: int| 0 <= r < values.len() && #[trigger] values[r] == x;
            assert(t.eval(left.expressions@[0], row) == x);
            assert(t.eval(right.expressions@[0], right_row) == values[right_row]);
            assert(t.is_match(left, right, row, right_row));
        },
    }
}

/// Over a prime field, an identity that a bound captures holds on a row
/// only if the column is below the limit there.
pub proof fn lemma_holds_captured(t: Trace, identity: Identity, column: int, limit: int, row: int)
    requires
        t.wf(),
        crate::field::is_prime(t.modulus),
        identity.wf(t.fixed.len() as int, t.witness.len() as int),
        captures_in(t.fixed, identity, column, limit),
        0 <= row < t.degree,
        0 <= column < t.witness.len(),
        t.holds_at(identity, row),
    ensures
        t.witness[column][row] < limit,
{
    let x = t.witness[column][row] as int;
    let m = t.modulus;
    match identity {
        Identity::Polynomial(e) => {
            reveal_with_fuel(Trace::eval, 4);
            vstd::arithmetic::div_mod::lemma_small_mod(1, m as nat);
            if x >= 2 {
                vstd::arithmetic::div_mod::lemma_small_mod((x - 1) as nat, m as nat);
                vstd::arithmetic::div_mod::lemma_mod_add_multiples_vanish(1 - x, m);
                vstd::arithmetic::div_mod::lemma_small_mod((m + 1 - x) as nat, m as nat);
                match e {
                    Expression::BinaryOperation(l, op, r) => {
                        let a = t.eval(*l, row);
                        let b = t.eval(*r, row);
                        if is_witness_cell(*l, column) && is_bit_factor(*r, column) {
                            assert(a == x);
                            assert(b == x - 1 || b == m + 1 - x);
                            crate::field::lemma_prime_product(m, a, b);
                        } else {
                            assert(b == x);
                            assert(a == x - 1 || a == m + 1 - x);
                            crate::field::lemma_prime_product(m, a, b);
                        }
                    },
                    _ => {},
                }
            }
        },
        Identity::Plookup(left, right) => {
            let f = fixed_column(right.expressions@[0]);
            let values = t.fixed[f];
            assert(right.expressions@[0].wf(t.fixed.len() as int, t.witness.len() as int));
            let right_row = choose|right_row: int| #[trigger]
                t.is_match(left, right, row, right_row);
            assert(t.eval(left.expressions@[0], row) == x);
            assert(t.eval(right.expressions@[0], right_row) == values[right_row]);
            assert(values.len() == t.degree);
        },
    }
}

/// Over a prime field, a trace that satisfies the identities stays below
/// every limit that an identity captures: there the identities alone say
/// what a witness is.
pub proof fn lemma_prime_bounded(t: Trace, identities: Seq<Identity>)
    requires
        t.wf(),
        crate::field::is_prime(t.modulus),
        crate::analyzed::identities_wf(identities, t.fixed.len() as int, t.witness.len() as int),
        t.satisfies(identities),
    ensures
        bounded(t, identities),
{
    assert forall|i: int, c: int, limit: int, row: int|
        #![trigger captures_in(t.fixed, identities[i], c, limit), t.witness[c][row]]
        0 <= i < identities.len() && captures_in(t.fixed, identities[i], c, limit) && 0 <= c
            < t.witness.len() && 0 <= row < t.degree implies t.witness[c][row] < limit by {
        assert(t.holds(identities[i]));
        assert(t.holds_at(identities[i], row));
        lemma_holds_captured(t, identities[i], c, limit, row);
    }
}

/// Pruning is sound: a trace that keeps every column within its bound
/// satisfies every identity that was dropped for a bound.
pub proof fn lemma_pruning_sound(
    fixed: &FixedData,
    identities: Seq<Identity>,
    constraints: Seq<Option<RangeConstraint>>,
    retained: Seq<bool>,
    t: Trace,
    i: int,
)
    requires
        fixed.wf(),
        t.wf(),
        t.fixed == fixed.fixed_values(),
        t.degree == fixed.degree,
        t.witness.len() == fixed.witness_count(),
        crate::analyzed::identities_wf(identities, fixed.fixed_count(), fixed.witness_count()),
        constraints_of(fixed, identities, constraints),
        retained_of(fixed, identities, retained),
        respects(t, constraints),
        0 <= i < identities.len(),
        !retained[i],
    ensures
        t.holds(identities[i]),
{
    let (column, limit) = choose|column: int, limit: int| #[trigger]
        captures(fixed, identities[i], column, limit);
    assert(identities[i].wf(fixed.fixed_count(), fixed.witness_count()));
    lemma_captured_column(fixed, identities[i], column, limit);
    assert(constraints[column] is Some && constraints[column]->0.limit <= limit);
    assert forall|row: int| 0 <= row < t.degree implies #[trigger] t.holds_at(
        identities[i],
        row,
    ) by {
        assert(constraints[column]->0.allows(t.witness[column][row]));
        lemma_captured_holds(fixed, t, identities[i], column, limit, row);
    }
}

/// A bound is captured for a column that exists.
pub proof fn lemma_captured_column(fixed: &FixedData, identity: Identity, column: int, limit: int)
    requires
        identity.wf(fixed.fixed_count(), fixed.witness_count()),
        captures(fixed, identity, column, limit),
    ensures
        0 <= column < fixed.witness_count(),
{
    reveal_with_fuel(Expression::wf, 4);
    match identity {
        Identity::Polynomial(e) => {},
        Identity::Plookup(left, right) => {
            assert(left.expressions@[0].wf(fixed.fixed_count(), fixed.witness_count()));
        },
    }
}

/// The witness column that the expression is on the current row, if it is one.
fn witness_cell(fixed: &FixedData, e: &Expression) -> (r: Option<usize>)
    requires
        e.wf(fixed.fixed_count(), fixed.witness_count()),
    ensures
        match r {
            Some(c) => is_witness_cell(*e, c as int) && c < fixed.witness_count(),
            None => forall|c: int| !is_witness_cell(*e, c),
        },
{
    let width: usize = fixed.witness_cols.len();
    match e {
        Expression::PolynomialReference(r) => {
            if r.next {
                None
            } else {
                match r.poly_id {
                    Some(p) => match p.ptype {
                        PolynomialType::Committed => {
                            assert(p.id < width);
                            Some(p.id as usize)
                        },
                        _ => None,
                    },
                    None => None,
                }
            }
        },
        _ => None,
    }
}

fn is_one(e: &Expression) -> (r: bool)
    ensures
        r == (*e == Expression::Number(1)),
{
    match e {
        Expression::Number(n) => *n == 1,
        _ => false,
    }
}

/// The witness column `X` for which the expression is `X - 1` or `1 - X`, if there is one.
fn bit_factor(fixed: &FixedData, e: &Expression) -> (r: Option<usize>)
    requires
        e.wf(fixed.fixed_count(), fixed.witness_count()),
    ensures
        match r {
            Some(c) => is_bit_factor(*e, c as int) && c < fixed.witness_count(),
            None => forall|c: int| !is_bit_factor(*e, c),
        },
{
    match e {
        Expression::BinaryOperation(l, op, r) => {
            match op {
                BinaryOperator::Sub => {
                    if is_one(r) {
                        witness_cell(fixed, l)
                    } else if is_one(l) {
                        witness_cell(fixed, r)
                    } else {
                        None
                    }
                },
                _ => None,
            }
        },
        _ => None,
    }
}

/// The witness column that the expression makes a bit, if it does so for one.
fn bit_constrained(fixed: &FixedData, e: &Expression) -> (r: Option<usize>)
    requires
        e.wf(fixed.fixed_count(), fixed.witness_count()),
    ensures
        match r {
            Some(c) => is_bit_constraint(*e, c as int) && c < fixed.witness_count(),
            None => forall|c: int| !is_bit_constraint(*e, c),
        },
{
    match e {
        Expression::BinaryOperation(l, op, r) => {
            match op {
                BinaryOperator::Mul => {
                    match (witness_cell(fixed, l), bit_factor(fixed, r)) {
                        (Some(a), Some(b)) => {
                            if a == b {
                                return Some(a);
                            }
                        },
                        _ => {},
                    }
                    match (bit_factor(fixed, l), witness_cell(fixed, r)) {
                        (Some(a), Some(b)) => {
                            if a == b {
                                return Some(a);
                            }
                        },
                        _ => {},
                    }
                    proof {
                        assert forall|c: int| !is_bit_constraint(*e, c) by {
                            if is_bit_constraint(*e, c) {
                                lemma_one_cell(**l, c);
                                lemma_one_cell(**r, c);
                            }
                        }
                    }
                    None
                },
                _ => None,
            }
        },
        _ => None,
    }
}

/// An expression is a cell, or a bit factor, of one column at most.
proof fn lemma_one_cell(e: Expression, c: int)
    ensures
        is_witness_cell(e, c) ==> forall|d: int| is_witness_cell(e, d) ==> d == c,
        is_bit_factor(e, c) ==> forall|d: int| is_bit_factor(e, d) ==> d == c,
{
}

/// The limit below which the values are exactly all numbers, if there is
/// one that is not too large.
pub fn enumerated_limit(values: &Vec<u64>) -> (r: Option<u64>)
    ensures
        match r {
            Some(limit) => enumerates(values@, limit as int) && limit <= MAX_ENUMERATED,
            None => forall|limit: int| !(enumerates(values@, limit) && limit <= MAX_ENUMERATED),
        },
{
    if values.len() == 0 {
        proof {
            assert(enumerates(values@, 0));
        }
        return Some(0);
    }
    let mut largest: u64 = values[0];
    let ghost mut at: int = 0;
    let mut k: usize = 1;
    while k < values.len()
        invariant
            1 <= k <= values@.len(),
            0 <= at < k,
            values@[at] == largest,
            forall|r: int| 0 <= r < k ==> #[trigger] values@[r] <= largest,
        decreases values.len() - k,
    {
        if values[k] > largest {
            largest = values[k];
            proof {
                at = k as int;
            }
        }
        k += 1;
    }
    if largest >= MAX_ENUMERATED {
        proof {
            assert forall|limit: int| !(enumerates(values@, limit) && limit
                <= MAX_ENUMERATED) by {
                if enumerates(values@, limit) {
                    assert(values@[at] < limit);
                }
            }
        }
        return None;
    }
    let limit: u64 = largest + 1;
    let mut seen: Vec<bool> = Vec::new();
    let mut v: u64 = 0;
    while v < limit
        invariant
            v <= limit,
            limit == largest + 1,
            largest < MAX_ENUMERATED,
            0 <= at < values@.len(),
            values@[at] == largest,
            forall|r: int| 0 <= r < values@.len() ==> #[trigger] values@[r] <= largest,
            seen@.len() == v,
            forall|j: int| 0 <= j < v ==> !#[trigger] seen@[j],
        decreases limit - v,
    {
        seen.push(false);
        v += 1;
    }
    let mut k: usize = 0;
    while k < values.len()
        invariant
            k <= values@.len(),
            seen@.len() == limit,
            limit == largest + 1,
            largest < MAX_ENUMERATED,
            0 <= at < values@.len(),
            values@[at] == largest,
            forall|r: int| 0 <= r < values@.len() ==> #[trigger] values@[r] <= largest,
            forall|j: int|
                0 <= j < limit ==> (#[trigger] seen@[j] <==> exists|r: int|
                    0 <= r < k && #[trigger] values@[r] == j),
        decreases values.len() - k,
    {
        let ghost before = seen@;
        let value: u64 = values[k];
        assert(values@[k as int] <= largest);
        seen.set(value as usize, true);
        proof {
            assert forall|j: int| 0 <= j < limit implies (#[trigger] seen@[j] <==> exists|r: int|
                0 <= r < k + 1 && #[trigger] values@[r] == j) by {
                if j == value {
                    assert(values@[k as int] == j);
                } else {
                    assert(seen@[j] == before[j]);
                    if before[j] {
                        let r = choose|r: int| 0 <= r < k && #[trigger] values@[r] == j;
                        assert(0 <= r < k + 1 && values@[r] == j);
                    }
                    if exists|r: int| 0 <= r < k + 1 && #[trigger] values@[r] == j {
                        let r = choose|r: int| 0 <= r < k + 1 && #[trigger] values@[r] == j;
                        assert(r != k);
                        assert(0 <= r < k && values@[r] == j);
                    }
                }
            }
        }
        k += 1;
    }
    let mut v: usize = 0;
    while v < seen.len()
        invariant
            v <= seen@.len(),
            seen@.len() == limit,
            limit == largest + 1,
            k == values@.len(),
            0 <= at < values@.len(),
            values@[at] == largest,
            forall|r: int| 0 <= r < values@.len() ==> #[trigger] values@[r] <= largest,
            forall|j: int|
                0 <= j < limit ==> (#[trigger] seen@[j] <==> exists|r: int|
                    0 <= r < k && #[trigger] values@[r] == j),
            forall|j: int| 0 <= j < v ==> #[trigger] seen@[j],
        decreases seen.len() - v,
    {
        if !seen[v] {
            proof {
                assert forall|l: int| !(enumerates(values@, l) && l <= MAX_ENUMERATED) by {
                    if enumerates(values@, l) {
                        assert(values@[at] < l);
                        assert(v < l);
                        assert(occurs(values@, v as int));
                        let r = choose|r: int| 0 <= r < values@.len() && #[trigger] values@[r] == v;
                        assert(0 <= r < k && values@[r] == v);
                    }
                }
            }
            return None;
        }
        v += 1;
    }
    proof {
        assert forall|r: int| 0 <= r < values@.len() implies #[trigger] values@[r] < limit by {}
        assert forall|x: int| 0 <= x < limit implies #[trigger] occurs(values@, x) by {
            assert(seen@[x]);
            let r = choose|r: int| 0 <= r < k && #[trigger] values@[r] == x;
            assert(0 <= r < values@.len() && values@[r] == x);
        }
    }
    Some(limit)
}

/// The column and the bound that capture the identity, if a bound does.
pub fn capture(fixed: &FixedData, identity: &Identity) -> (r: Option<(usize, RangeConstraint)>)
    requires
        fixed.wf(),
        identity.wf(fixed.fixed_count(), fixed.witness_count()),
    ensures
        match r {
            Some((column, rc)) => captures(fixed, *identity, column as int, rc.limit as int)
                && column < fixed.witness_count(),
            None => !captured(fixed, *identity),
        },
{
    match identity {
        Identity::Polynomial(e) => match bit_constrained(fixed, e) {
            Some(column) => Some((column, RangeConstraint::below(2))),
            None => None,
        },
        Identity::Plookup(left, right) => {
            if left.selector.is_some() || right.selector.is_some() || left.expressions.len() != 1
                || right.expressions.len() != 1 {
                return None;
            }
            assert(left.expressions@[0].wf(fixed.fixed_count(), fixed.witness_count()));
            assert(right.expressions@[0].wf(fixed.fixed_count(), fixed.witness_count()));
            let column: usize = match witness_cell(fixed, &left.expressions[0]) {
                Some(column) => column,
                None => {
                    return None;
                },
            };
            let table: usize = match &right.expressions[0] {
                Expression::PolynomialReference(r) => {
                    if r.next {
                        return None;
                    }
                    match r.poly_id {
                        Some(p) => match p.ptype {
                            PolynomialType::Constant => {
                                let count: usize = fixed.fixed_cols.len();
                                assert(p.id < count);
                                p.id as usize
                            },
                            _ => {
                                return None;
                            },
                        },
                        None => {
                            return None;
                        },
                    }
                },
                _ => {
                    return None;
                },
            };
            assert(fixed.fixed_values()[table as int] == fixed.fixed_cols.values@[table as int].values@);
            match enumerated_limit(fixed.fixed_cols.values[table].values) {
                Some(limit) => {
                    proof {
                        lemma_one_cell(left.expressions@[0], column as int);
                    }
                    Some((column, RangeConstraint::below(limit)))
                },
                None => {
                    proof {
                        assert forall|c: int, l: int| !#[trigger] captures(
                            fixed,
                            *identity,
                            c,
                            l,
                        ) by {}
                    }
                    None
                },
            }
        },
    }
}

/// Finds the bounds that the identities give, and tells which identities
/// are kept: those that say more than a bound.
pub fn determine_global_constraints(fixed: &FixedData, identities: &Vec<Identity>) -> (r: (
    GlobalConstraints,
    Vec<bool>,
))
    requires
        fixed.wf(),
        crate::analyzed::identities_wf(identities@, fixed.fixed_count(), fixed.witness_count()),
    ensures
        constraints_of(fixed, identities@, r.0.witness_constraints@),
        retained_of(fixed, identities@, r.1@),
{
    let width: usize = fixed.witness_cols.len();
    let mut constraints: Vec<Option<RangeConstraint>> = Vec::new();
    let mut c: usize = 0;
    while c < width
        invariant
            c <= width,
            constraints@.len() == c,
            forall|j: int| 0 <= j < c ==> (#[trigger] constraints@[j]) is None,
        decreases width - c,
    {
        constraints.push(None);
        c += 1;
    }
    let mut retained: Vec<bool> = Vec::new();
    let mut i: usize = 0;
    while i < identities.len()
        invariant
            fixed.wf(),
            crate::analyzed::identities_wf(identities@, fixed.fixed_count(), fixed.witness_count()),
            width == fixed.witness_count(),
            i <= identities@.len(),
            retained@.len() == i,
            constraints_of(fixed, identities@.take(i as int), constraints@),
            forall|j: int| 0 <= j < i ==> #[trigger] retained@[j] == !captured(fixed, identities@[j]),
        decreases identities.len() - i,
    {
        assert(identities@[i as int].wf(fixed.fixed_count(), fixed.witness_count()));
        let ghost before = constraints@;
        let ghost earlier = identities@.take(i as int);
        let ghost now = identities@.take(i as int + 1);
        match capture(fixed, &identities[i]) {
            Some((column, rc)) => {
                let bound: RangeConstraint = match &constraints[column] {
                    Some(known) => known.conjunction(&rc),
                    None => rc,
                };
                constraints.set(column, Some(bound));
                retained.push(false);
                proof {
                    assert(captured(fixed, identities@[i as int]));
                    assert(now.len() == i + 1);
                    assert(earlier.len() == i);
                    assert(now[i as int] == identities@[i as int]);
                    assert forall|c: int| 0 <= c < constraints@.len() implies #[trigger] bound_justified(
                        fixed,
                        now,
                        constraints@,
                        c,
                    ) by {
                        assert(bound_justified(fixed, earlier, before, c));
                        if c == column {
                            assert(constraints@[c] == Some(bound));
                            if bound.limit == rc.limit {
                                assert(0 <= i < now.len() && captures(
                                    fixed,
                                    now[i as int],
                                    c,
                                    bound.limit as int,
                                ));
                                assert(exists|j: int|
                                    0 <= j < now.len() && #[trigger] captures(
                                        fixed,
                                        now[j],
                                        c,
                                        bound.limit as int,
                                    ));
                                assert(constraints@[c]->0.limit == bound.limit);
                                assert(constraints@[c] is Some);
                                assert(bound_justified(fixed, now, constraints@, c));
                            } else {
                                assert(before[c] is Some);
                                assert(before[c]->0.limit == bound.limit);
                                let j = choose|j: int|
                                    0 <= j < earlier.len() && #[trigger] captures(
                                        fixed,
                                        earlier[j],
                                        c,
                                        before[c]->0.limit as int,
                                    );
                                assert(now[j] == earlier[j]);
                                assert(0 <= j < now.len() && captures(
                                    fixed,
                                    now[j],
                                    c,
                                    bound.limit as int,
                                ));
                                assert(bound_justified(fixed, now, constraints@, c));
                            }
                        } else {
                            assert(constraints@[c] == before[c]);
                            if before[c] is Some {
                                let j = choose|j: int|
                                    0 <= j < earlier.len() && #[trigger] captures(
                                        fixed,
                                        earlier[j],
                                        c,
                                        before[c]->0.limit as int,
                                    );
                                assert(now[j] == earlier[j]);
                                assert(0 <= j < now.len() && captures(
                                    fixed,
                                    now[j],
                                    c,
                                    before[c]->0.limit as int,
                                ));
                            }
                            assert(bound_justified(fixed, now, constraints@, c));
                        }
                    }
                    assert forall|j: int, c: int, limit: int|
                        0 <= j < now.len() && 0 <= c < constraints@.len() && #[trigger] captures(
                            fixed,
                            now[j],
                            c,
                            limit,
                        ) implies constraints@[c] is Some && constraints@[c]->0.limit <= limit by {
                        if j < i {
                            assert(now[j] == earlier[j]);
                            assert(before[c] is Some && before[c]->0.limit <= limit);
                        } else {
                            lemma_captures_once(fixed, identities@[i as int], c, limit, column as int, rc.limit as int);
                        }
                    }
                }
            },
            None => {
                retained.push(true);
                proof {
                    assert forall|c: int| 0 <= c < constraints@.len() implies #[trigger] bound_justified(
                        fixed,
                        now,
                        constraints@,
                        c,
                    ) by {
                        assert(bound_justified(fixed, earlier, before, c));
                        if before[c] is Some {
                            let j = choose|j: int|
                                0 <= j < earlier.len() && #[trigger] captures(
                                    fixed,
                                    earlier[j],
                                    c,
                                    before[c]->0.limit as int,
                                );
                            assert(now[j] == earlier[j]);
                            assert(captures(fixed, now[j], c, before[c]->0.limit as int));
                        }
                    }
                    assert forall|j: int, c: int, limit: int|
                        0 <= j < now.len() && 0 <= c < constraints@.len() && #[trigger] captures(
                            fixed,
                            now[j],
                            c,
                            limit,
                        ) implies constraints@[c] is Some && constraints@[c]->0.limit <= limit by {
                        if j < i {
                            assert(now[j] == earlier[j]);
                        } else {
                            assert(now[j] == identities@[i as int]);
                            assert(captured(fixed, identities@[i as int]));
                        }
                    }
                }
            },
        }
        i += 1;
    }
    proof {
        assert(identities@.take(i as int) == identities@);
    }
    (GlobalConstraints { witness_constraints: constraints }, retained)
}

/// An identity captures one bound only.
proof fn lemma_captures_once(
    fixed: &FixedData,
    identity: Identity,
    c: int,
    limit: int,
    column: int,
    known: int,
)
    requires
        captures(fixed, identity, c, limit),
        captures(fixed, identity, column, known),
    ensures
        c == column,
        limit == known,
{
    match identity {
        Identity::Polynomial(e) => {
            match e {
                Expression::BinaryOperation(l, op, r) => {
                    lemma_one_cell(*l, c);
                    lemma_one_cell(*r, c);
                },
                _ => {},
            }
        },
        Identity::Plookup(left, right) => {
            lemma_one_cell(left.expressions@[0], c);
            let values = fixed.fixed_values()[fixed_column(right.expressions@[0])];
            // Both limits are one more than the largest value.
            if 0 <= limit < known {
                assert(occurs(values, limit));
                let r = choose|r: int| 0 <= r < values.len() && #[trigger] values[r] == limit;
                assert(values[r] < limit);
            }
            if 0 <= known < limit {
                assert(occurs(values, known));
                let r = choose|r: int| 0 <= r < values.len() && #[trigger] values[r] == known;
                assert(values[r] < known);
            }
        },
    }
}

} // verus!
