//! Splits the constraint system into machines and what is left for the main solver.
//!
//! A lookup whose right-hand side mentions witness columns makes a machine
//! of these columns and of all columns that identities connect them with.
//! The machine gets the identities that mention its columns only. What no
//! machine claims stays with the main solver.

use vstd::prelude::*;
use crate::analyzed::{
    expressions_mention,
    identities_wf,
    Expression,
    Identity,
    PolynomialType,
    SelectedExpressions,
};
use crate::generator::{initial_cell, Generator};
use crate::global_constraints::GlobalConstraints;
use crate::machines::fixed_lookup::FixedLookup;
use crate::machines::Machine;
use crate::FixedData;

verus! {

/// The number of entries that are true.
pub open spec fn count_true(s: Seq<bool>) -> nat
    decreases s.len(),
{
    if s.len() == 0 {
        0
    } else {
        count_true(s.drop_last()) + if s.last() {
            1nat
        } else {
            0nat
        }
    }
}

proof fn lemma_count_bound(s: Seq<bool>)
    ensures
        count_true(s) <= s.len(),
    decreases s.len(),
{
    if s.len() > 0 {
        lemma_count_bound(s.drop_last());
    }
}

/// Making a false entry true adds one to the count.
proof fn lemma_count_set(s: Seq<bool>, c: int)
    requires
        0 <= c < s.len(),
        !s[c],
    ensures
        count_true(s.update(c, true)) == count_true(s) + 1,
    decreases s.len(),
{
    let t = s.update(c, true);
    if c == s.len() - 1 {
        assert(t.drop_last() == s.drop_last());
    } else {
        assert(t.drop_last() == s.drop_last().update(c, true));
        lemma_count_set(s.drop_last(), c);
    }
}

/// Whether one side of an identity mentions a witness column. A polynomial
/// identity has one side; a lookup has its left side, 0, and its right side, 1.
pub open spec fn side_mentions(identity: Identity, side: int, c: int) -> bool {
    match identity {
        Identity::Polynomial(e) => side == 0 && e.mentions(c),
        Identity::Plookup(left, right) => if side == 0 {
            left.mentions(c)
        } else {
            side == 1 && right.mentions(c)
        },
    }
}

/// Whether the two columns are among the remaining ones and are mentioned
/// together on one side of an identity that is considered.
pub open spec fn linked(
    identities: Seq<Identity>,
    considered: Seq<bool>,
    remaining: Seq<bool>,
    i: int,
    side: int,
    a: int,
    b: int,
) -> bool {
    &&& 0 <= i < identities.len()
    &&& considered[i]
    &&& 0 <= a < remaining.len()
    &&& 0 <= b < remaining.len()
    &&& remaining[a]
    &&& remaining[b]
    &&& side_mentions(identities[i], side, a)
    &&& side_mentions(identities[i], side, b)
}

/// Whether a set of columns holds, with each of its columns, all columns
/// that are linked with it.
pub open spec fn closed(
    identities: Seq<Identity>,
    considered: Seq<bool>,
    remaining: Seq<bool>,
    s: Set<int>,
) -> bool {
    forall|i: int, side: int, a: int, b: int| #[trigger]
        linked(identities, considered, remaining, i, side, a, b) && s.contains(a) ==> s.contains(
            b,
        )
}

/// Whether a set holds every column of the seed.
pub open spec fn holds_seed(seed: Seq<bool>, s: Set<int>) -> bool {
    forall|a: int| 0 <= a < seed.len() && #[trigger] seed[a] ==> s.contains(a)
}

/// Whether the column is connected with the seed: it lies in every closed
/// set that holds the seed.
pub open spec fn connected(
    identities: Seq<Identity>,
    considered: Seq<bool>,
    remaining: Seq<bool>,
    seed: Seq<bool>,
    c: int,
) -> bool {
    forall|s: Set<int>| #[trigger]
        closed(identities, considered, remaining, s) && holds_seed(seed, s) ==> s.contains(c)
}

/// The columns that are marked, as a set.
pub open spec fn marked(w: Seq<bool>) -> Set<int> {
    Set::new(|c: int| 0 <= c < w.len() && w[c])
}

/// Whether the side of the identity is closed in the marked columns.
pub open spec fn side_closed(
    identities: Seq<Identity>,
    considered: Seq<bool>,
    remaining: Seq<bool>,
    w: Seq<bool>,
    i: int,
    side: int,
) -> bool {
    forall|a: int, b: int| #[trigger]
        linked(identities, considered, remaining, i, side, a, b) && w[a] ==> w[b]
}

/// Marks the witness columns that an expression mentions.
fn mark_expression(fixed: &FixedData, e: &Expression, marks: &mut Vec<bool>)
    requires
        e.wf(fixed.fixed_count(), fixed.witness_count()),
        old(marks)@.len() == fixed.witness_count(),
    ensures
        final(marks)@.len() == old(marks)@.len(),
        forall|c: int|
            0 <= c < old(marks)@.len() ==> #[trigger] final(marks)@[c] == (old(marks)@[c]
                || e.mentions(c)),
    decreases e,
{
    match e {
        Expression::Number(_) => {},
        Expression::PolynomialReference(r) => {
            match r.poly_id {
                Some(p) => match p.ptype {
                    PolynomialType::Committed => {
                        let width: usize = marks.len();
                        assert(p.id < width);
                        marks.set(p.id as usize, true);
                    },
                    _ => {},
                },
                None => {},
            }
        },
        Expression::BinaryOperation(l, _, r) => {
            mark_expression(fixed, l, marks);
            mark_expression(fixed, r, marks);
        },
        Expression::UnaryOperation(_, x) => {
            mark_expression(fixed, x, marks);
        },
    }
}

/// A vector of so many times the same truth value.
fn uniform(len: usize, value: bool) -> (r: Vec<bool>)
    ensures
        r@.len() == len,
        forall|c: int| 0 <= c < len ==> #[trigger] r@[c] == value,
{
    let mut r: Vec<bool> = Vec::new();
    let mut c: usize = 0;
    while c < len
        invariant
            c <= len,
            r@.len() == c,
            forall|j: int| 0 <= j < c ==> #[trigger] r@[j] == value,
        decreases len - c,
    {
        r.push(value);
        c += 1;
    }
    r
}

/// The witness columns that a selector and its expressions mention.
fn selected_references(fixed: &FixedData, s: &SelectedExpressions) -> (r: Vec<bool>)
    requires
        s.wf(fixed.fixed_count(), fixed.witness_count()),
    ensures
        r@.len() == fixed.witness_count(),
        forall|c: int| 0 <= c < r@.len() ==> #[trigger] r@[c] == s.mentions(c),
{
    let width: usize = fixed.witness_cols.len();
    let mut marks: Vec<bool> = uniform(width, false);
    match &s.selector {
        Some(e) => {
            mark_expression(fixed, e, &mut marks);
        },
        None => {},
    }
    let ghost selector_marks = marks@;
    let mut k: usize = 0;
    while k < s.expressions.len()
        invariant
            s.wf(fixed.fixed_count(), fixed.witness_count()),
            k <= s.expressions@.len(),
            marks@.len() == fixed.witness_count(),
            forall|c: int|
                0 <= c < marks@.len() ==> #[trigger] marks@[c] == (selector_marks[c]
                    || expressions_mention(s.expressions@.take(k as int), c)),
        decreases s.expressions.len() - k,
    {
        let ghost before = marks@;
        assert(s.expressions@[k as int].wf(fixed.fixed_count(), fixed.witness_count()));
        mark_expression(fixed, &s.expressions[k], &mut marks);
        proof {
            let earlier = s.expressions@.take(k as int);
            let now = s.expressions@.take(k as int + 1);
            assert forall|c: int| 0 <= c < marks@.len() implies #[trigger] marks@[c] == (
            selector_marks[c] || expressions_mention(now, c)) by {
                if expressions_mention(earlier, c) {
                    let j = choose|j: int| 0 <= j < earlier.len() && (#[trigger] earlier[j]).mentions(c);
                    assert(now[j] == earlier[j]);
                }
                if s.expressions@[k as int].mentions(c) {
                    assert(now[k as int] == s.expressions@[k as int]);
                }
                if expressions_mention(now, c) {
                    let j = choose|j: int| 0 <= j < now.len() && (#[trigger] now[j]).mentions(c);
                    if j < k {
                        assert(earlier[j] == now[j]);
                    }
                }
            }
        }
        k += 1;
    }
    proof {
        assert(s.expressions@.take(k as int) == s.expressions@);
    }
    marks
}

/// The witness columns that one side of an identity mentions.
fn side_references(fixed: &FixedData, identity: &Identity, right_side: bool) -> (r: Vec<bool>)
    requires
        identity.wf(fixed.fixed_count(), fixed.witness_count()),
    ensures
        r@.len() == fixed.witness_count(),
        forall|c: int|
            0 <= c < r@.len() ==> #[trigger] r@[c] == side_mentions(
                *identity,
                if right_side {
                    1
                } else {
                    0
                },
                c,
            ),
{
    let width: usize = fixed.witness_cols.len();
    match identity {
        Identity::Polynomial(e) => {
            let mut marks: Vec<bool> = uniform(width, false);
            if !right_side {
                mark_expression(fixed, e, &mut marks);
            }
            marks
        },
        Identity::Plookup(left, right) => {
            if right_side {
                selected_references(fixed, right)
            } else {
                selected_references(fixed, left)
            }
        },
    }
}

/// Whether a column is marked in all three vectors.
fn intersects(a: &Vec<bool>, b: &Vec<bool>, c: &Vec<bool>) -> (r: bool)
    requires
        a@.len() == b@.len(),
        a@.len() == c@.len(),
    ensures
        r == exists|k: int| 0 <= k < a@.len() && #[trigger] a@[k] && b@[k] && c@[k],
{
    let mut k: usize = 0;
    while k < a.len()
        invariant
            k <= a@.len(),
            a@.len() == b@.len(),
            a@.len() == c@.len(),
            forall|j: int| 0 <= j < k ==> !(#[trigger] a@[j] && b@[j] && c@[j]),
        decreases a.len() - k,
    {
        if a[k] && b[k] && c[k] {
            return true;
        }
        k += 1;
    }
    false
}

/// Whether a column is marked in both vectors.
fn overlaps(a: &Vec<bool>, b: &Vec<bool>) -> (r: bool)
    requires
        a@.len() == b@.len(),
    ensures
        r == exists|k: int| 0 <= k < a@.len() && #[trigger] a@[k] && b@[k],
{
    let mut k: usize = 0;
    while k < a.len()
        invariant
            k <= a@.len(),
            a@.len() == b@.len(),
            forall|j: int| 0 <= j < k ==> !(#[trigger] a@[j] && b@[j]),
        decreases a.len() - k,
    {
        if a[k] && b[k] {
            return true;
        }
        k += 1;
    }
    false
}

/// The remaining columns that are connected with the seed through the
/// identities that are considered.
pub fn all_row_connected_witnesses(
    fixed: &FixedData,
    identities: &Vec<Identity>,
    considered: &Vec<bool>,
    seed: Vec<bool>,
    remaining: &Vec<bool>,
) -> (r: Vec<bool>)
    requires
        fixed.wf(),
        identities_wf(identities@, fixed.fixed_count(), fixed.witness_count()),
        considered@.len() == identities@.len(),
        seed@.len() == fixed.witness_count(),
        remaining@.len() == fixed.witness_count(),
        forall|c: int| 0 <= c < seed@.len() && seed@[c] ==> remaining@[c],
    ensures
        r@.len() == fixed.witness_count(),
        forall|c: int|
            0 <= c < r@.len() ==> #[trigger] r@[c] == connected(
                identities@,
                considered@,
                remaining@,
                seed@,
                c,
            ),
        forall|c: int| 0 <= c < r@.len() && #[trigger] r@[c] ==> remaining@[c],
        forall|c: int| 0 <= c < r@.len() && seed@[c] ==> #[trigger] r@[c],
{
    let width: usize = fixed.witness_cols.len();
    let mut witnesses: Vec<bool> = Vec::new();
    let mut c: usize = 0;
    while c < width
        invariant
            c <= width,
            width == seed@.len(),
            witnesses@ == seed@.take(c as int),
        decreases width - c,
    {
        witnesses.push(seed[c]);
        proof {
            assert(seed@.take(c as int + 1) == seed@.take(c as int).push(seed@[c as int]));
        }
        c += 1;
    }
    proof {
        assert(seed@.take(width as int) == seed@);
        assert forall|c: int| 0 <= c < width && witnesses@[c] implies connected(
            identities@,
            considered@,
            remaining@,
            seed@,
            c,
        ) by {}
    }
    loop
        invariant
            fixed.wf(),
            identities_wf(identities@, fixed.fixed_count(), fixed.witness_count()),
            considered@.len() == identities@.len(),
            width == fixed.witness_count(),
            seed@.len() == width,
            remaining@.len() == width,
            witnesses@.len() == width,
            forall|c: int| 0 <= c < width && seed@[c] ==> #[trigger] witnesses@[c],
            forall|c: int| 0 <= c < width && #[trigger] witnesses@[c] ==> remaining@[c],
            forall|c: int|
                0 <= c < width && #[trigger] witnesses@[c] ==> connected(
                    identities@,
                    considered@,
                    remaining@,
                    seed@,
                    c,
                ),
        ensures
            witnesses@.len() == width,
            forall|c: int| 0 <= c < width && seed@[c] ==> #[trigger] witnesses@[c],
            forall|c: int| 0 <= c < width && #[trigger] witnesses@[c] ==> remaining@[c],
            forall|c: int|
                0 <= c < width && #[trigger] witnesses@[c] ==> connected(
                    identities@,
                    considered@,
                    remaining@,
                    seed@,
                    c,
                ),
            forall|i: int, side: int|
                0 <= i < identities@.len() && 0 <= side < 2 ==> #[trigger] side_closed(
                    identities@,
                    considered@,
                    remaining@,
                    witnesses@,
                    i,
                    side,
                ),
        decreases width - count_true(witnesses@),
    {
        let ghost start = witnesses@;
        let mut changed: bool = false;
        let mut i: usize = 0;
        while i < identities.len()
            invariant
                fixed.wf(),
                identities_wf(identities@, fixed.fixed_count(), fixed.witness_count()),
                considered@.len() == identities@.len(),
                width == fixed.witness_count(),
                seed@.len() == width,
                remaining@.len() == width,
                witnesses@.len() == width,
                i <= identities@.len(),
                forall|c: int| 0 <= c < width && seed@[c] ==> #[trigger] witnesses@[c],
                forall|c: int| 0 <= c < width && #[trigger] witnesses@[c] ==> remaining@[c],
                forall|c: int|
                    0 <= c < width && #[trigger] witnesses@[c] ==> connected(
                        identities@,
                        considered@,
                        remaining@,
                        seed@,
                        c,
                    ),
                count_true(witnesses@) >= count_true(start),
                changed ==> count_true(witnesses@) > count_true(start),
                !changed ==> forall|j: int, side: int|
                    0 <= j < i && 0 <= side < 2 ==> #[trigger] side_closed(
                        identities@,
                        considered@,
                        remaining@,
                        witnesses@,
                        j,
                        side,
                    ),
            decreases identities.len() - i,
        {
            if considered[i] {
                assert(identities@[i as int].wf(fixed.fixed_count(), fixed.witness_count()));
                let mut side: usize = 0;
                while side < 2
                    invariant
                        fixed.wf(),
                        identities_wf(identities@, fixed.fixed_count(), fixed.witness_count()),
                        considered@.len() == identities@.len(),
                        width == fixed.witness_count(),
                        seed@.len() == width,
                        remaining@.len() == width,
                        witnesses@.len() == width,
                        i < identities@.len(),
                        considered@[i as int],
                        side <= 2,
                        forall|c: int| 0 <= c < width && seed@[c] ==> #[trigger] witnesses@[c],
                        forall|c: int| 0 <= c < width && #[trigger] witnesses@[c] ==> remaining@[c],
                        forall|c: int|
                            0 <= c < width && #[trigger] witnesses@[c] ==> connected(
                                identities@,
                                considered@,
                                remaining@,
                                seed@,
                                c,
                            ),
                        count_true(witnesses@) >= count_true(start),
                        changed ==> count_true(witnesses@) > count_true(start),
                        !changed ==> forall|j: int, s2: int|
                            0 <= j < i && 0 <= s2 < 2 ==> #[trigger] side_closed(
                                identities@,
                                considered@,
                                remaining@,
                                witnesses@,
                                j,
                                s2,
                            ),
                        !changed ==> forall|s2: int|
                            0 <= s2 < side ==> #[trigger] side_closed(
                                identities@,
                                considered@,
                                remaining@,
                                witnesses@,
                                i as int,
                                s2,
                            ),
                    decreases 2 - side,
                {
                    let marks: Vec<bool> = side_references(fixed, &identities[i], side == 1);
                    if intersects(&marks, remaining, &witnesses) {
                        let ghost a = choose|k: int|
                            0 <= k < marks@.len() && #[trigger] marks@[k] && remaining@[k]
                                && witnesses@[k];
                        let mut b: usize = 0;
                        while b < width
                            invariant
                                width == fixed.witness_count(),
                                seed@.len() == width,
                                remaining@.len() == width,
                                witnesses@.len() == width,
                                marks@.len() == width,
                                considered@.len() == identities@.len(),
                                i < identities@.len(),
                                considered@[i as int],
                                side < 2,
                                b <= width,
                                0 <= a < width,
                                marks@[a],
                                remaining@[a],
                                witnesses@[a],
                                forall|c: int|
                                    0 <= c < width ==> #[trigger] marks@[c] == side_mentions(
                                        identities@[i as int],
                                        side as int,
                                        c,
                                    ),
                                forall|c: int|
                                    0 <= c < width && seed@[c] ==> #[trigger] witnesses@[c],
                                forall|c: int|
                                    0 <= c < width && #[trigger] witnesses@[c] ==> remaining@[c],
                                forall|c: int|
                                    0 <= c < width && #[trigger] witnesses@[c] ==> connected(
                                        identities@,
                                        considered@,
                                        remaining@,
                                        seed@,
                                        c,
                                    ),
                                count_true(witnesses@) >= count_true(start),
                                changed ==> count_true(witnesses@) > count_true(start),
                                !changed ==> forall|j: int, s2: int|
                                    0 <= j < i && 0 <= s2 < 2 ==> #[trigger] side_closed(
                                        identities@,
                                        considered@,
                                        remaining@,
                                        witnesses@,
                                        j,
                                        s2,
                                    ),
                                !changed ==> forall|s2: int|
                                    0 <= s2 < side ==> #[trigger] side_closed(
                                        identities@,
                                        considered@,
                                        remaining@,
                                        witnesses@,
                                        i as int,
                                        s2,
                                    ),
                                forall|c: int|
                                    0 <= c < b && marks@[c] && remaining@[c] ==> #[trigger] witnesses@[c],
                            decreases width - b,
                        {
                            if marks[b] && remaining[b] && !witnesses[b] {
                                let ghost before = witnesses@;
                                witnesses.set(b, true);
                                changed = true;
                                proof {
                                    lemma_count_set(before, b as int);
                                    assert(connected(
                                        identities@,
                                        considered@,
                                        remaining@,
                                        seed@,
                                        b as int,
                                    )) by {
                                        assert(connected(
                                            identities@,
                                            considered@,
                                            remaining@,
                                            seed@,
                                            a,
                                        ));
                                        assert forall|s: Set<int>| #[trigger]
                                            closed(identities@, considered@, remaining@, s)
                                                && holds_seed(seed@, s) implies s.contains(
                                            b as int,
                                        ) by {
                                            assert(s.contains(a));
                                            assert(linked(
                                                identities@,
                                                considered@,
                                                remaining@,
                                                i as int,
                                                side as int,
                                                a,
                                                b as int,
                                            ));
                                        }
                                    }
                                    assert forall|c: int|
                                        0 <= c < width && #[trigger] witnesses@[c] implies connected(
                                        identities@,
                                        considered@,
                                        remaining@,
                                        seed@,
                                        c,
                                    ) by {
                                        if c != b {
                                            assert(before[c]);
                                        }
                                    }
                                    assert forall|c: int|
                                        0 <= c < width && #[trigger] witnesses@[c] implies remaining@[c] by {
                                        if c != b {
                                            assert(before[c]);
                                        }
                                    }
                                    assert forall|c: int|
                                        0 <= c < b + 1 && marks@[c] && remaining@[c] implies #[trigger] witnesses@[c] by {
                                        if c != b {
                                            assert(before[c]);
                                        }
                                    }
                                    assert forall|c: int|
                                        0 <= c < width && seed@[c] implies #[trigger] witnesses@[c] by {
                                        if c != b {
                                            assert(before[c]);
                                        }
                                    }
                                }
                            }
                            b += 1;
                        }
                        proof {
                            assert(side_closed(
                                identities@,
                                considered@,
                                remaining@,
                                witnesses@,
                                i as int,
                                side as int,
                            )) by {
                                assert forall|x: int, y: int| #[trigger]
                                    linked(
                                        identities@,
                                        considered@,
                                        remaining@,
                                        i as int,
                                        side as int,
                                        x,
                                        y,
                                    ) && witnesses@[x] implies witnesses@[y] by {
                                    assert(marks@[y]);
                                }
                            }
                        }
                    } else {
                        proof {
                            assert(side_closed(
                                identities@,
                                considered@,
                                remaining@,
                                witnesses@,
                                i as int,
                                side as int,
                            )) by {
                                assert forall|x: int, y: int| #[trigger]
                                    linked(
                                        identities@,
                                        considered@,
                                        remaining@,
                                        i as int,
                                        side as int,
                                        x,
                                        y,
                                    ) && witnesses@[x] implies witnesses@[y] by {
                                    assert(marks@[x] && remaining@[x] && witnesses@[x]);
                                }
                            }
                        }
                    }
                    side += 1;
                }
            } else {
                proof {
                    assert forall|s2: int| 0 <= s2 < 2 implies #[trigger] side_closed(
                        identities@,
                        considered@,
                        remaining@,
                        witnesses@,
                        i as int,
                        s2,
                    ) by {}
                }
            }
            i += 1;
        }
        if !changed {
            break ;
        }
        proof {
            lemma_count_bound(witnesses@);
        }
    }
    proof {
        let s = marked(witnesses@);
        assert(closed(identities@, considered@, remaining@, s)) by {
            assert forall|i: int, side: int, a: int, b: int| #[trigger]
                linked(identities@, considered@, remaining@, i, side, a, b) && s.contains(
                    a,
                ) implies s.contains(b) by {
                if 0 <= side < 2 {
                    assert(side_closed(identities@, considered@, remaining@, witnesses@, i, side));
                }
            }
        }
        assert(holds_seed(seed@, s));
        assert forall|c: int| 0 <= c < witnesses@.len() implies #[trigger] witnesses@[c]
            == connected(identities@, considered@, remaining@, seed@, c) by {
            if connected(identities@, considered@, remaining@, seed@, c) {
                assert(s.contains(c));
            }
        }
    }
    witnesses
}

/// The machines that were split out, and what is left for the main solver.
pub struct ExtractionOutput<'a> {
    pub fixed_lookup: FixedLookup,
    pub machines: Vec<Machine<'a>>,
    /// The identities that no machine has taken.
    pub base_identities: Vec<bool>,
    /// The witness columns that no machine has taken.
    pub base_witnesses: Vec<bool>,
}

/// Whether some machine owns the witness column.
pub open spec fn machine_owns(machines: Seq<Machine>, c: int) -> bool {
    exists|k: int| 0 <= k < machines.len() && (#[trigger] machines[k]).generator().witnesses@[c]
}

/// Whether some machine has taken the identity.
pub open spec fn machine_claims(machines: Seq<Machine>, i: int) -> bool {
    exists|k: int|
        0 <= k < machines.len() && (#[trigger] machines[k]).generator().owned_identities@[i]
}

/// No identity is taken by both solvers.
pub open spec fn claims_apart(a: Generator, b: Generator) -> bool {
    forall|i: int|
        0 <= i < a.owned_identities@.len() && #[trigger] a.owned_identities@[i]
            ==> !b.owned_identities@[i]
}

/// A machine is a fresh solver for a part of the system: it has taken only
/// identities that are kept and that mention no column but its own.
pub open spec fn machine_ok<'a>(
    m: Generator<'a>,
    fixed: &'a FixedData<'a>,
    identities: &'a Vec<Identity>,
    retained: Seq<bool>,
    constraints: &'a GlobalConstraints,
) -> bool {
    &&& m.wf()
    &&& m.fixed == fixed
    &&& m.identities == identities
    &&& m.global_range_constraints == constraints
    &&& forall|c: int, row: int|
        0 <= c < fixed.witness_count() && 0 <= row < fixed.degree ==> (#[trigger] m.rows@[c][row])
            == initial_cell(fixed, m.witnesses@, c, row)
    &&& forall|i: int|
        0 <= i < identities@.len() && #[trigger] m.owned_identities@[i] ==> retained[i]
    &&& forall|i: int, c: int|
        0 <= i < identities@.len() && 0 <= c < fixed.witness_count() && m.owned_identities@[i]
            && #[trigger] identities@[i].mentions(c) ==> m.witnesses@[c]
}

/// Every witness column has one owner, a machine or the main solver, and
/// every identity that is kept has one.
pub open spec fn partition(
    machines: Seq<Machine>,
    base_identities: Seq<bool>,
    base_witnesses: Seq<bool>,
    retained: Seq<bool>,
) -> bool {
    &&& base_identities.len() == retained.len()
    &&& forall|c: int|
        0 <= c < base_witnesses.len() ==> #[trigger] base_witnesses[c] == !machine_owns(machines, c)
    &&& forall|i: int|
        0 <= i < base_identities.len() ==> #[trigger] base_identities[i] == (retained[i]
            && !machine_claims(machines, i))
    &&& forall|j: int, k: int|
        0 <= j < k < machines.len() ==> (#[trigger] machines[j]).generator().apart(
            &(#[trigger] machines[k]).generator(),
        ) && claims_apart(machines[j].generator(), machines[k].generator())
}

/// Whether the identity mentions a witness column, and only marked ones.
pub open spec fn takes(identity: Identity, marks: Seq<bool>) -> bool {
    &&& exists|c: int| 0 <= c < marks.len() && #[trigger] identity.mentions(c)
    &&& forall|c: int| 0 <= c < marks.len() && #[trigger] identity.mentions(c) ==> marks[c]
}

/// The witness columns that none of the first `k` machines owns.
pub open spec fn remaining_before(machines: Seq<Machine>, k: int, width: int) -> Seq<bool> {
    Seq::new(width as nat, |c: int| !machine_owns(machines.take(k), c))
}

/// The columns among the remaining ones that the right-hand side of a lookup mentions.
pub open spec fn seed_of(identity: Identity, remaining: Seq<bool>) -> Seq<bool> {
    Seq::new(
        remaining.len(),
        |c: int|
            remaining[c] && match identity {
                Identity::Plookup(_, right) => right.mentions(c),
                Identity::Polynomial(_) => false,
            },
    )
}

/// Whether the machine is made for the lookup: its columns are the
/// remaining columns that are connected with what the right-hand side of
/// the lookup mentions, and its identities are those not yet taken that
/// mention columns of the machine only.
pub open spec fn made_for(
    machines: Seq<Machine>,
    k: int,
    identities: Seq<Identity>,
    retained: Seq<bool>,
    width: int,
    i: int,
) -> bool {
    let m = machines[k].generator();
    let remaining = remaining_before(machines, k, width);
    let seed = seed_of(identities[i], remaining);
    &&& 0 <= i < identities.len()
    &&& retained[i]
    &&& exists|c: int| 0 <= c < width && #[trigger] seed[c]
    &&& forall|c: int|
        0 <= c < width ==> #[trigger] m.witnesses@[c] == connected(
            identities,
            retained,
            remaining,
            seed,
            c,
        )
    &&& forall|j: int|
        0 <= j < identities.len() ==> #[trigger] m.owned_identities@[j] == (retained[j]
            && !machine_claims(machines.take(k), j) && takes(identities[j], m.witnesses@))
}

/// Whether the machine is made in its turn: for the lookup that is its
/// origin, which comes after the origin of the machine before it, and
/// before which no lookup that is kept looks into a column that none of
/// the earlier machines has taken.
pub open spec fn made_in_turn(
    machines: Seq<Machine>,
    origins: Seq<int>,
    k: int,
    identities: Seq<Identity>,
    retained: Seq<bool>,
    width: int,
) -> bool {
    &&& made_for(machines, k, identities, retained, width, origins[k])
    &&& tables_taken(identities, retained, remaining_before(machines, k, width), origins[k])
    &&& k > 0 ==> origins[k - 1] < origins[k]
}

/// Whether the machines are made for the given lookups, in their order.
pub open spec fn machines_in_order(
    machines: Seq<Machine>,
    origins: Seq<int>,
    identities: Seq<Identity>,
    retained: Seq<bool>,
    width: int,
) -> bool {
    &&& origins.len() == machines.len()
    &&& forall|k: int|
        0 <= k < machines.len() ==> #[trigger] made_in_turn(
            machines,
            origins,
            k,
            identities,
            retained,
            width,
        )
}

/// Every machine is made for a lookup that is kept, and the machines come
/// in the order of these lookups: each for the first lookup that looks into
/// a column that the machines before it have left.
pub open spec fn machines_made(
    machines: Seq<Machine>,
    identities: Seq<Identity>,
    retained: Seq<bool>,
    width: int,
) -> bool {
    exists|origins: Seq<int>| #[trigger]
        machines_in_order(machines, origins, identities, retained, width)
}

/// No lookup that is kept looks into a column that is left to the main solver.
pub open spec fn tables_taken(
    identities: Seq<Identity>,
    retained: Seq<bool>,
    base_witnesses: Seq<bool>,
    n: int,
) -> bool {
    forall|i: int, c: int|
        0 <= i < n && i < identities.len() && retained[i] && 0 <= c < base_witnesses.len()
            && #[trigger] side_mentions(identities[i], 1, c) ==> !base_witnesses[c]
}

/// Whether the identity mentions a witness column, and only marked ones.
fn mentions_only(fixed: &FixedData, identity: &Identity, marks: &Vec<bool>) -> (r: bool)
    requires
        identity.wf(fixed.fixed_count(), fixed.witness_count()),
        marks@.len() == fixed.witness_count(),
    ensures
        r == takes(*identity, marks@),
{
    let left: Vec<bool> = side_references(fixed, identity, false);
    let right: Vec<bool> = side_references(fixed, identity, true);
    proof {
        assert forall|c: int| 0 <= c < marks@.len() implies #[trigger] identity.mentions(c) == (
        left@[c] || right@[c]) by {}
    }
    let mut any: bool = false;
    let mut c: usize = 0;
    while c < marks.len()
        invariant
            c <= marks@.len(),
            left@.len() == marks@.len(),
            right@.len() == marks@.len(),
            forall|k: int|
                0 <= k < marks@.len() ==> #[trigger] identity.mentions(k) == (left@[k]
                    || right@[k]),
            any == exists|k: int| 0 <= k < c && #[trigger] identity.mentions(k),
            forall|k: int| 0 <= k < c && #[trigger] identity.mentions(k) ==> marks@[k],
        decreases marks.len() - c,
    {
        if left[c] || right[c] {
            if !marks[c] {
                assert(identity.mentions(c as int));
                return false;
            }
            any = true;
            assert(identity.mentions(c as int));
        }
        c += 1;
    }
    any
}

/// Splits the witness columns and the identities that are kept into
/// machines and a rest. Each lookup, in the order of the identities, whose
/// right-hand side mentions columns that are not yet taken makes a machine:
/// of all remaining columns that are connected with these, and of all
/// identities not yet taken that mention columns of the machine only.
pub fn split_out_machines<'a>(
    fixed: &'a FixedData<'a>,
    identities: &'a Vec<Identity>,
    retained: &Vec<bool>,
    global_range_constraints: &'a GlobalConstraints,
) -> (r: ExtractionOutput<'a>)
    requires
        fixed.wf(),
        identities_wf(identities@, fixed.fixed_count(), fixed.witness_count()),
        retained@.len() == identities@.len(),
        global_range_constraints.witness_constraints@.len() == fixed.witness_count(),
    ensures
        r.base_witnesses@.len() == fixed.witness_count(),
        r.base_identities@.len() == identities@.len(),
        partition(r.machines@, r.base_identities@, r.base_witnesses@, retained@),
        forall|k: int|
            0 <= k < r.machines@.len() ==> machine_ok(
                (#[trigger] r.machines@[k]).generator(),
                fixed,
                identities,
                retained@,
                global_range_constraints,
            ),
        machines_made(r.machines@, identities@, retained@, fixed.witness_count()),
        tables_taken(identities@, retained@, r.base_witnesses@, identities@.len() as int),
{
    let fixed_lookup: FixedLookup = FixedLookup::new();
    let width: usize = fixed.witness_cols.len();
    let count: usize = identities.len();
    let mut machines: Vec<Machine<'a>> = Vec::new();
    let mut remaining: Vec<bool> = uniform(width, true);
    let mut base: Vec<bool> = Vec::new();
    let mut i: usize = 0;
    while i < count
        invariant
            i <= count,
            count == retained@.len(),
            base@ == retained@.take(i as int),
        decreases count - i,
    {
        base.push(retained[i]);
        proof {
            assert(retained@.take(i as int + 1) == retained@.take(i as int).push(
                retained@[i as int],
            ));
        }
        i += 1;
    }
    proof {
        assert(retained@.take(count as int) == retained@);
    }
    let ghost mut origins: Seq<int> = Seq::empty();
    let mut i: usize = 0;
    while i < count
        invariant
            fixed.wf(),
            identities_wf(identities@, fixed.fixed_count(), fixed.witness_count()),
            retained@.len() == identities@.len(),
            global_range_constraints.witness_constraints@.len() == fixed.witness_count(),
            width == fixed.witness_count(),
            count == identities@.len(),
            i <= count,
            remaining@.len() == width,
            base@.len() == count,
            partition(machines@, base@, remaining@, retained@),
            forall|k: int|
                0 <= k < machines@.len() ==> machine_ok(
                    (#[trigger] machines@[k]).generator(),
                    fixed,
                    identities,
                    retained@,
                    global_range_constraints,
                ),
            machines_in_order(machines@, origins, identities@, retained@, width as int),
            forall|k: int| 0 <= k < origins.len() ==> #[trigger] origins[k] < i,
            tables_taken(identities@, retained@, remaining@, i as int),
        decreases count - i,
    {
        assert(identities@[i as int].wf(fixed.fixed_count(), fixed.witness_count()));
        let ghost remaining_at_entry = remaining@;
        let is_lookup: bool = match &identities[i] {
            Identity::Plookup(_, _) => true,
            Identity::Polynomial(_) => false,
        };
        if retained[i] && is_lookup {
            let right: Vec<bool> = side_references(fixed, &identities[i], true);
            if overlaps(&right, &remaining) {
                let mut seed: Vec<bool> = Vec::new();
                let mut c: usize = 0;
                while c < width
                    invariant
                        c <= width,
                        right@.len() == width,
                        remaining@.len() == width,
                        seed@.len() == c,
                        forall|k: int|
                            0 <= k < c ==> #[trigger] seed@[k] == (right@[k] && remaining@[k]),
                    decreases width - c,
                {
                    seed.push(right[c] && remaining[c]);
                    c += 1;
                }
                let ghost seed_view = seed@;
                let machine_witnesses: Vec<bool> = all_row_connected_witnesses(
                    fixed,
                    identities,
                    retained,
                    seed,
                    &remaining,
                );
                let mut machine_identities: Vec<bool> = Vec::new();
                let mut j: usize = 0;
                while j < count
                    invariant
                        fixed.wf(),
                        identities_wf(identities@, fixed.fixed_count(), fixed.witness_count()),
                        width == fixed.witness_count(),
                        count == identities@.len(),
                        base@.len() == count,
                        machine_witnesses@.len() == width,
                        j <= count,
                        machine_identities@.len() == j,
                        forall|k: int|
                            0 <= k < j ==> #[trigger] machine_identities@[k] == (base@[k] && takes(
                                identities@[k],
                                machine_witnesses@,
                            )),
                    decreases count - j,
                {
                    assert(identities@[j as int].wf(fixed.fixed_count(), fixed.witness_count()));
                    let taken: bool = base[j] && mentions_only(
                        fixed,
                        &identities[j],
                        &machine_witnesses,
                    );
                    machine_identities.push(taken);
                    j += 1;
                }
                let ghost old_machines = machines@;
                let ghost old_base = base@;
                let ghost old_remaining = remaining@;
                let mut j: usize = 0;
                while j < count
                    invariant
                        count == old_base.len(),
                        base@.len() == count,
                        machine_identities@.len() == count,
                        j <= count,
                        forall|k: int|
                            0 <= k < j ==> #[trigger] base@[k] == (old_base[k]
                                && !machine_identities@[k]),
                        forall|k: int| j <= k < count ==> #[trigger] base@[k] == old_base[k],
                    decreases count - j,
                {
                    if machine_identities[j] {
                        base.set(j, false);
                    }
                    j += 1;
                }
                let mut c: usize = 0;
                while c < width
                    invariant
                        width == old_remaining.len(),
                        remaining@.len() == width,
                        machine_witnesses@.len() == width,
                        c <= width,
                        forall|k: int|
                            0 <= k < c ==> #[trigger] remaining@[k] == (old_remaining[k]
                                && !machine_witnesses@[k]),
                        forall|k: int| c <= k < width ==> #[trigger] remaining@[k] == old_remaining[k],
                    decreases width - c,
                {
                    if machine_witnesses[c] {
                        remaining.set(c, false);
                    }
                    c += 1;
                }
                let ghost claimed = machine_identities@;
                let ghost owned = machine_witnesses@;
                proof {
                    assert forall|k: int| 0 <= k < count implies #[trigger] claimed[k] == (
                    old_base[k] && takes(identities@[k], owned)) by {}
                    assert forall|k: int| 0 <= k < count && #[trigger] claimed[k] implies retained@[k] by {
                        assert(old_base[k]);
                    }
                }
                let generator: Generator<'a> = Generator::new(
                    fixed,
                    identities,
                    machine_identities,
                    machine_witnesses,
                    global_range_constraints,
                );
                machines.push(Machine::Vm(generator));
                proof {
                    let n = old_machines.len() as int;
                    assert(machines@.len() == n + 1);
                    assert(machines@[n].generator() == generator);
                    assert forall|k: int| 0 <= k < n implies #[trigger] machines@[k]
                        == old_machines[k] by {}
                    assert(machine_ok(
                        generator,
                        fixed,
                        identities,
                        retained@,
                        global_range_constraints,
                    ));
                    assert forall|k: int| 0 <= k < machines@.len() implies machine_ok(
                        (#[trigger] machines@[k]).generator(),
                        fixed,
                        identities,
                        retained@,
                        global_range_constraints,
                    ) by {
                        if k < n {
                            assert(machines@[k] == old_machines[k]);
                        }
                    }
                    assert forall|c: int| 0 <= c < width implies #[trigger] remaining@[c]
                        == !machine_owns(machines@, c) by {
                        assert(old_remaining[c] == !machine_owns(old_machines, c));
                        if machine_owns(old_machines, c) {
                            let k = choose|k: int|
                                0 <= k < old_machines.len() && (
                                #[trigger] old_machines[k]).generator().witnesses@[c];
                            assert(machines@[k] == old_machines[k]);
                            assert(machine_owns(machines@, c));
                        } else if owned[c] {
                            assert(machines@[n].generator().witnesses@[c]);
                            assert(machine_owns(machines@, c));
                        } else {
                            if machine_owns(machines@, c) {
                                let k = choose|k: int|
                                    0 <= k < machines@.len() && (
                                    #[trigger] machines@[k]).generator().witnesses@[c];
                                if k < n {
                                    assert(machines@[k] == old_machines[k]);
                                    assert(machine_owns(old_machines, c));
                                }
                            }
                        }
                    }
                    assert forall|x: int| 0 <= x < count implies #[trigger] base@[x] == (retained@[x]
                        && !machine_claims(machines@, x)) by {
                        assert(old_base[x] == (retained@[x] && !machine_claims(old_machines, x)));
                        if machine_claims(old_machines, x) {
                            let k = choose|k: int|
                                0 <= k < old_machines.len() && (
                                #[trigger] old_machines[k]).generator().owned_identities@[x];
                            assert(machines@[k] == old_machines[k]);
                            assert(machine_claims(machines@, x));
                        } else if claimed[x] {
                            assert(machines@[n].generator().owned_identities@[x]);
                            assert(machine_claims(machines@, x));
                        } else {
                            if machine_claims(machines@, x) {
                                let k = choose|k: int|
                                    0 <= k < machines@.len() && (
                                    #[trigger] machines@[k]).generator().owned_identities@[x];
                                if k < n {
                                    assert(machines@[k] == old_machines[k]);
                                    assert(machine_claims(old_machines, x));
                                }
                            }
                        }
                    }
                    assert forall|j: int, k: int| 0 <= j < k < machines@.len() implies (
                    #[trigger] machines@[j]).generator().apart(
                        &(#[trigger] machines@[k]).generator(),
                    ) && claims_apart(machines@[j].generator(), machines@[k].generator()) by {
                        assert(machines@[j] == old_machines[j]);
                        if k < n {
                            assert(machines@[k] == old_machines[k]);
                        } else {
                            let a = machines@[j].generator();
                            assert forall|c: int|
                                0 <= c < a.witnesses@.len() && #[trigger] a.witnesses@[c] implies !generator.witnesses@[c] by {
                                assert(machine_owns(old_machines, c));
                                assert(old_remaining[c] == !machine_owns(old_machines, c));
                            }
                            assert forall|x: int|
                                0 <= x < a.owned_identities@.len()
                                    && #[trigger] a.owned_identities@[x] implies !generator.owned_identities@[x] by {
                                assert(machine_claims(old_machines, x));
                                assert(old_base[x] == (retained@[x] && !machine_claims(
                                    old_machines,
                                    x,
                                )));
                            }
                        }
                    }
                    // The machines that were there are made for their lookups as before.
                    let old_origins = origins;
                    origins = old_origins.push(i as int);
                    assert forall|k: int| 0 <= k < n implies #[trigger] made_in_turn(
                        machines@,
                        origins,
                        k,
                        identities@,
                        retained@,
                        width as int,
                    ) by {
                        assert(made_in_turn(
                            old_machines,
                            old_origins,
                            k,
                            identities@,
                            retained@,
                            width as int,
                        ));
                        let x = old_origins[k];
                        assert(origins[k] == x);
                        assert(machines@.take(k) =~= old_machines.take(k));
                        assert(machines@[k] == old_machines[k]);
                        assert(remaining_before(machines@, k, width as int) =~= remaining_before(
                            old_machines,
                            k,
                            width as int,
                        ));
                        assert(made_for(machines@, k, identities@, retained@, width as int, x));
                        if k > 0 {
                            assert(origins[k - 1] == old_origins[k - 1]);
                        }
                    }
                    // The new machine is made for the lookup at hand.
                    assert(machines@.take(n) =~= old_machines);
                    let before = remaining_before(machines@, n, width as int);
                    assert(before =~= old_remaining);
                    assert(seed_of(identities@[i as int], before) =~= seed_view);
                    assert(made_for(machines@, n, identities@, retained@, width as int, i as int)) by {
                        let c = choose|c: int|
                            0 <= c < right@.len() && #[trigger] right@[c] && old_remaining[c];
                        assert(seed_view[c]);
                        assert(seed_of(identities@[i as int], before)[c]);
                        assert forall|j: int| 0 <= j < identities@.len() implies #[trigger] generator.owned_identities@[j]
                            == (retained@[j] && !machine_claims(machines@.take(n), j) && takes(
                            identities@[j],
                            generator.witnesses@,
                        )) by {
                            assert(old_base[j] == (retained@[j] && !machine_claims(
                                old_machines,
                                j,
                            )));
                        }
                    }
                    assert(made_in_turn(
                        machines@,
                        origins,
                        n,
                        identities@,
                        retained@,
                        width as int,
                    )) by {
                        assert(origins[n] == i);
                        if n > 0 {
                            assert(origins[n - 1] == old_origins[n - 1]);
                            assert(old_origins[n - 1] < i);
                        }
                    }
                    assert forall|k: int| 0 <= k < origins.len() implies #[trigger] origins[k] < i
                        + 1 by {
                        if k < n {
                            assert(origins[k] == old_origins[k]);
                        }
                    }
                    // What the lookup looks into is taken now.
                    assert forall|c: int| 0 <= c < width && #[trigger] remaining@[c] implies remaining_at_entry[c]
                        && !side_mentions(identities@[i as int], 1, c) by {
                        if side_mentions(identities@[i as int], 1, c) {
                            assert(right@[c]);
                            assert(seed_view[c]);
                            assert(owned[c]);
                        }
                    }
                }
            } else {
                proof {
                    assert forall|c: int| 0 <= c < width && #[trigger] remaining@[c] implies remaining_at_entry[c]
                        && !side_mentions(identities@[i as int], 1, c) by {
                        if side_mentions(identities@[i as int], 1, c) {
                            assert(right@[c] && remaining@[c]);
                        }
                    }
                }
            }
        }
        proof {
            assert forall|x: int, c: int|
                0 <= x < i + 1 && x < identities@.len() && retained@[x] && 0 <= c < remaining@.len()
                    && #[trigger] side_mentions(identities@[x], 1, c) implies !remaining@[c] by {
                if remaining@[c] {
                    assert(remaining_at_entry[c]);
                }
            }
        }
        i += 1;
    }
    proof {
        assert(machines_in_order(machines@, origins, identities@, retained@, width as int));
    }
    ExtractionOutput {
        fixed_lookup,
        machines,
        base_identities: base,
        base_witnesses: remaining,
    }
}

} // verus!
