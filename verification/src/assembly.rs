//! Why the columns that the solvers hand out are a solution of the whole system.

use vstd::prelude::*;
use crate::analyzed::Identity;
use crate::eval_result::EvalError;
use crate::generator::{
    can_ask,
    cell_in_range,
    columns_known,
    initial_cell,
    limits_of,
    others_unchanged,
    owned_values,
    Generator,
};
use crate::identity_processor::keeps;
use crate::trace::Trace;
use crate::global_constraints::{
    bound_justified,
    captured,
    captures,
    constraints_of,
    lemma_pruning_sound,
    respects,
    retained_of,
    GlobalConstraints,
};
use crate::machines::machine_extractor::{
    claims_apart,
    machine_claims,
    machine_ok,
    machine_owns,
    partition,
};
use crate::machines::Machine;
use crate::rows::{
    column_known,
    completes,
    extends,
    lemma_trace_of_wf,
    trace_of,
    zero_filled,
    Cells,
};
use crate::FixedData;

verus! {

/// What the main solver and the machines have in common after a run that
/// succeeded: all are solvers for parts of the system that was split, all
/// have solved their part, and the main solver knows the machines' columns.
pub open spec fn all_solved<'a>(
    main: Generator<'a>,
    machines: Seq<Machine<'a>>,
    fixed: &'a FixedData<'a>,
    identities: &'a Vec<Identity>,
    constraints: &'a GlobalConstraints,
    retained: Seq<bool>,
) -> bool {
    &&& main.wf()
    &&& main.fixed == fixed
    &&& main.identities == identities
    &&& main.global_range_constraints == constraints
    &&& main.solved()
    &&& partition(machines, main.owned_identities@, main.witnesses@, retained)
    &&& forall|k: int|
        0 <= k < machines.len() ==> {
            &&& (#[trigger] machines[k]).generator().wf()
            &&& machines[k].generator().same_system(&main)
            &&& machines[k].generator().solved()
            &&& main.imported(&machines[k].generator())
            &&& self_contained(machines[k].generator())
        }
}

/// The identities that the solver has taken mention no column but its own.
pub open spec fn self_contained(m: Generator) -> bool {
    forall|i: int, c: int|
        0 <= i < m.identities@.len() && 0 <= c < m.fixed.witness_count() && m.owned_identities@[i]
            && #[trigger] m.identities@[i].mentions(c) ==> m.witnesses@[c]
}

/// The main solver knows every cell of a column, and the cells are within
/// the column's bound.
proof fn lemma_column_known<'a>(
    main: Generator<'a>,
    machines: Seq<Machine<'a>>,
    fixed: &'a FixedData<'a>,
    identities: &'a Vec<Identity>,
    constraints: &'a GlobalConstraints,
    retained: Seq<bool>,
    c: int,
)
    requires
        all_solved(main, machines, fixed, identities, constraints, retained),
        0 <= c < fixed.witness_count(),
    ensures
        column_known(main.rows@, c),
        forall|row: int|
            0 <= row < fixed.degree ==> #[trigger] cell_in_range(
                constraints.witness_constraints@,
                main.rows@,
                c,
                row,
            ),
{
    if main.witnesses@[c] {
        assert(column_known(main.rows@, c));
        assert forall|row: int| 0 <= row < fixed.degree implies #[trigger] cell_in_range(
            constraints.witness_constraints@,
            main.rows@,
            c,
            row,
        ) by {}
    } else {
        assert(machine_owns(machines, c));
        let k = choose|k: int|
            0 <= k < machines.len() && (#[trigger] machines[k]).generator().witnesses@[c];
        let m = machines[k].generator();
        assert(main.rows@[c] == m.rows@[c]);
        assert(column_known(m.rows@, c));
        assert forall|row: int| 0 <= row < fixed.degree implies #[trigger] cell_in_range(
            constraints.witness_constraints@,
            main.rows@,
            c,
            row,
        ) by {
            assert(cell_in_range(constraints.witness_constraints@, m.rows@, c, row));
        }
    }
}

/// After a run that succeeded, what the main solver knows satisfies every
/// identity of the system: those that it has solved itself, those that
/// the machines have solved, and those that were dropped for a bound.
pub proof fn lemma_solution<'a>(
    main: Generator<'a>,
    machines: Seq<Machine<'a>>,
    fixed: &'a FixedData<'a>,
    identities: &'a Vec<Identity>,
    constraints: &'a GlobalConstraints,
    retained: Seq<bool>,
)
    requires
        all_solved(main, machines, fixed, identities, constraints, retained),
        constraints_of(fixed, identities@, constraints.witness_constraints@),
        retained_of(fixed, identities@, retained),
    ensures
        trace_of(fixed, main.rows@).wf(),
        trace_of(fixed, main.rows@).satisfies(identities@),
        respects(trace_of(fixed, main.rows@), constraints.witness_constraints@),
{
    let t = trace_of(fixed, main.rows@);
    lemma_trace_of_wf(fixed, main.rows@);
    assert(respects(t, constraints.witness_constraints@)) by {
        assert forall|c: int, row: int|
            0 <= c < constraints.witness_constraints@.len() && 0 <= row
                < t.degree implies match constraints.witness_constraints@[c] {
            Some(rc) => rc.allows(#[trigger] t.witness[c][row]),
            None => true,
        } by {
            lemma_column_known(main, machines, fixed, identities, constraints, retained, c);
            assert(cell_in_range(constraints.witness_constraints@, main.rows@, c, row));
            assert(main.rows@[c].len() == fixed.degree);
        }
    }
    assert forall|i: int| 0 <= i < identities@.len() implies t.holds(
        #[trigger] identities@[i],
    ) by {
        assert(identities@[i].wf(fixed.fixed_count(), fixed.witness_count()));
        if !retained[i] {
            lemma_pruning_sound(
                fixed,
                identities@,
                constraints.witness_constraints@,
                retained,
                t,
                i,
            );
        } else if main.owned_identities@[i] {
            assert forall|row: int| 0 <= row < t.degree implies #[trigger] t.holds_at(
                identities@[i],
                row,
            ) by {}
        } else {
            assert(machine_claims(machines, i));
            let k = choose|k: int|
                0 <= k < machines.len() && (#[trigger] machines[k]).generator().owned_identities@[i];
            let m = machines[k].generator();
            let tm = trace_of(fixed, m.rows@);
            lemma_trace_of_wf(fixed, m.rows@);
            assert forall|c: int|
                0 <= c < tm.witness.len() && identities@[i].mentions(c) implies #[trigger] tm.same_column(
                t,
                c,
            ) by {
                assert(m.witnesses@[c]);
                assert(main.rows@[c] == m.rows@[c]);
                assert(zero_filled(main.rows@)[c] =~= zero_filled(m.rows@)[c]);
            }
            assert forall|row: int| 0 <= row < t.degree implies #[trigger] t.holds_at(
                identities@[i],
                row,
            ) by {
                assert(tm.holds_at(identities@[i], row));
                tm.lemma_holds_on_columns(t, identities@[i], row);
            }
        }
    }
}

/// Where a solver started from the supplied values of its columns,
/// every column for which values were supplied still holds them.
pub proof fn lemma_supplied_kept<'a>(
    fixed: &'a FixedData<'a>,
    witnesses: Seq<bool>,
    start: Cells,
    end: Cells,
    c: int,
)
    requires
        fixed.wf(),
        crate::rows::cells_wf(fixed, start),
        crate::rows::cells_wf(fixed, end),
        extends(end, start),
        0 <= c < fixed.witness_count(),
        witnesses.len() == fixed.witness_count(),
        witnesses[c],
        forall|row: int|
            0 <= row < fixed.degree ==> (#[trigger] start[c][row]) == initial_cell(
                fixed,
                witnesses,
                c,
                row,
            ),
        fixed.witness_cols.values@[c].external_view() is Some,
    ensures
        zero_filled(end)[c] == fixed.witness_cols.values@[c].external_view()->0,
{
    let v = fixed.witness_cols.values@[c].external_view()->0;
    assert(v.len() == fixed.degree);
    assert(end[c].len() == fixed.degree);
    assert(start[c].len() == fixed.degree);
    assert forall|row: int| 0 <= row < fixed.degree implies zero_filled(end)[c][row] == v[row] by {
        assert(start[c][row] == Some(v[row]));
        assert(end[c][row] == start[c][row]);
    }
    assert(zero_filled(end)[c] =~= v);
}

/// The name and the values of a column.
pub open spec fn entry_of(fixed: &FixedData, witness: Seq<Seq<u64>>, c: int) -> (
    Seq<char>,
    Seq<u64>,
) {
    (fixed.witness_cols.values@[c].name@, witness[c])
}

/// Whether the entries hold the name and the values of the column.
pub open spec fn has_entry(
    entries: Seq<(Seq<char>, Seq<u64>)>,
    fixed: &FixedData,
    witness: Seq<Seq<u64>>,
    c: int,
) -> bool {
    exists|j: int| 0 <= j < entries.len() && #[trigger] entries[j] == entry_of(fixed, witness, c)
}

/// Whether the entry is the name and the values of some column.
pub open spec fn is_entry(
    entry: (Seq<char>, Seq<u64>),
    fixed: &FixedData,
    witness: Seq<Seq<u64>>,
) -> bool {
    exists|c: int| 0 <= c < fixed.witness_count() && entry == #[trigger] entry_of(fixed, witness, c)
}

/// Every entry is the name and the values of some column.
pub open spec fn entries_sound(
    entries: Seq<(Seq<char>, Seq<u64>)>,
    fixed: &FixedData,
    witness: Seq<Seq<u64>>,
) -> bool {
    forall|j: int| 0 <= j < entries.len() ==> is_entry(#[trigger] entries[j], fixed, witness)
}

/// Whether the entry is the name and the values of one of the first `n`
/// columns that is owned.
pub open spec fn owned_entry(
    entry: (Seq<char>, Seq<u64>),
    fixed: &FixedData,
    witnesses: Seq<bool>,
    witness: Seq<Seq<u64>>,
    n: int,
) -> bool {
    exists|c: int|
        0 <= c < n && witnesses[c] && entry == #[trigger] entry_of(fixed, witness, c)
}

/// What a solver hands out are the names and values of its columns: an
/// entry for each, and no other entry.
pub proof fn lemma_owned_values(fixed: &FixedData, witnesses: Seq<bool>, cells: Cells, n: int)
    requires
        0 <= n <= witnesses.len(),
        witnesses.len() == fixed.witness_count(),
    ensures
        forall|j: int|
            0 <= j < owned_values(fixed, witnesses, cells, n).len() ==> owned_entry(
                #[trigger] owned_values(fixed, witnesses, cells, n)[j],
                fixed,
                witnesses,
                zero_filled(cells),
                n,
            ),
        forall|c: int|
            0 <= c < n && witnesses[c] ==> #[trigger] has_entry(
                owned_values(fixed, witnesses, cells, n),
                fixed,
                zero_filled(cells),
                c,
            ),
    decreases n,
{
    if n > 0 {
        lemma_owned_values(fixed, witnesses, cells, n - 1);
        let before = owned_values(fixed, witnesses, cells, n - 1);
        let now = owned_values(fixed, witnesses, cells, n);
        let w = zero_filled(cells);
        assert forall|j: int| 0 <= j < now.len() implies owned_entry(
            #[trigger] now[j],
            fixed,
            witnesses,
            w,
            n,
        ) by {
            if j < before.len() {
                assert(owned_entry(before[j], fixed, witnesses, w, n - 1));
                let c = choose|c: int|
                    0 <= c < n - 1 && witnesses[c] && before[j] == #[trigger] entry_of(fixed, w, c);
                assert(now[j] == before[j]);
                assert(0 <= c < n && witnesses[c] && now[j] == entry_of(fixed, w, c));
            } else {
                assert(witnesses[n - 1]);
                assert(now[j] == entry_of(fixed, w, n - 1));
            }
        }
        assert forall|c: int| 0 <= c < n && witnesses[c] implies #[trigger] has_entry(
            now,
            fixed,
            w,
            c,
        ) by {
            if c < n - 1 {
                assert(has_entry(before, fixed, w, c));
                let j = choose|j: int|
                    0 <= j < before.len() && #[trigger] before[j] == entry_of(fixed, w, c);
                assert(now[j] == before[j]);
            } else {
                assert(now[now.len() - 1] == entry_of(fixed, w, c));
            }
        }
    }
}

/// The machines that were split out can work beside the main solver.
pub proof fn lemma_machines_fit<'a>(
    main: Generator<'a>,
    machines: Seq<Machine<'a>>,
    fixed: &'a FixedData<'a>,
    identities: &'a Vec<Identity>,
    constraints: &'a GlobalConstraints,
    retained: Seq<bool>,
)
    requires
        main.wf(),
        main.fixed == fixed,
        main.identities == identities,
        main.global_range_constraints == constraints,
        partition(machines, main.owned_identities@, main.witnesses@, retained),
        forall|k: int|
            0 <= k < machines.len() ==> machine_ok(
                (#[trigger] machines[k]).generator(),
                fixed,
                identities,
                retained,
                constraints,
            ),
    ensures
        main.machines_fit(machines),
{
    assert forall|k: int| 0 <= k < machines.len() implies {
        &&& (#[trigger] machines[k]).generator().wf()
        &&& machines[k].generator().same_system(&main)
        &&& machines[k].generator().apart(&main)
    } by {
        let m = machines[k].generator();
        assert(machine_ok(m, fixed, identities, retained, constraints));
        assert forall|c: int|
            0 <= c < m.witnesses@.len() && #[trigger] m.witnesses@[c] implies !main.witnesses@[c] by {
            assert(machine_owns(machines, c));
        }
    }
}

/// After a run that succeeded, the main solver and the machines have
/// solved the system that was split.
pub proof fn lemma_all_solved<'a>(
    main: Generator<'a>,
    machines: Seq<Machine<'a>>,
    start: Generator<'a>,
    split: Seq<Machine<'a>>,
    fixed: &'a FixedData<'a>,
    identities: &'a Vec<Identity>,
    constraints: &'a GlobalConstraints,
    retained: Seq<bool>,
)
    requires
        start.fixed == fixed,
        start.identities == identities,
        start.global_range_constraints == constraints,
        partition(split, start.owned_identities@, start.witnesses@, retained),
        forall|k: int|
            0 <= k < split.len() ==> machine_ok(
                (#[trigger] split[k]).generator(),
                fixed,
                identities,
                retained,
                constraints,
            ),
        main.wf(),
        main.same_task(&start),
        Generator::machines_follow(machines, split),
        main.solved(),
        main.machines_done(machines),
    ensures
        all_solved(main, machines, fixed, identities, constraints, retained),
{
    assert forall|c: int| 0 <= c < main.witnesses@.len() implies machine_owns(machines, c)
        == machine_owns(split, c) by {
        if machine_owns(machines, c) {
            let k = choose|k: int|
                0 <= k < machines.len() && (#[trigger] machines[k]).generator().witnesses@[c];
            assert(machines[k].generator().same_task(&split[k].generator()));
            assert(split[k].generator().witnesses@[c]);
        }
        if machine_owns(split, c) {
            let k = choose|k: int|
                0 <= k < split.len() && (#[trigger] split[k]).generator().witnesses@[c];
            assert(machines[k].generator().same_task(&split[k].generator()));
            assert(machines[k].generator().witnesses@[c]);
        }
    }
    assert forall|i: int| 0 <= i < main.owned_identities@.len() implies machine_claims(
        machines,
        i,
    ) == machine_claims(split, i) by {
        if machine_claims(machines, i) {
            let k = choose|k: int|
                0 <= k < machines.len() && (#[trigger] machines[k]).generator().owned_identities@[i];
            assert(machines[k].generator().same_task(&split[k].generator()));
            assert(split[k].generator().owned_identities@[i]);
        }
        if machine_claims(split, i) {
            let k = choose|k: int|
                0 <= k < split.len() && (#[trigger] split[k]).generator().owned_identities@[i];
            assert(machines[k].generator().same_task(&split[k].generator()));
            assert(machines[k].generator().owned_identities@[i]);
        }
    }
    assert forall|j: int, k: int| 0 <= j < k < machines.len() implies (
    #[trigger] machines[j]).generator().apart(&(#[trigger] machines[k]).generator())
        && claims_apart(machines[j].generator(), machines[k].generator()) by {
        assert(machines[j].generator().same_task(&split[j].generator()));
        assert(machines[k].generator().same_task(&split[k].generator()));
        assert(split[j].generator().apart(&split[k].generator()));
        assert(claims_apart(split[j].generator(), split[k].generator()));
    }
    assert forall|k: int| 0 <= k < machines.len() implies {
        &&& (#[trigger] machines[k]).generator().wf()
        &&& machines[k].generator().same_system(&main)
        &&& machines[k].generator().solved()
        &&& main.imported(&machines[k].generator())
        &&& self_contained(machines[k].generator())
    } by {
        let m = machines[k].generator();
        let m0 = split[k].generator();
        assert(m.same_task(&m0));
        assert(machine_ok(m0, fixed, identities, retained, constraints));
    }
}

/// A column for which values were supplied holds them after the run,
/// whichever solver owns it.
pub proof fn lemma_supplied_column<'a>(
    main: Generator<'a>,
    machines: Seq<Machine<'a>>,
    start: Generator<'a>,
    split: Seq<Machine<'a>>,
    fixed: &'a FixedData<'a>,
    identities: &'a Vec<Identity>,
    constraints: &'a GlobalConstraints,
    retained: Seq<bool>,
    c: int,
)
    requires
        all_solved(main, machines, fixed, identities, constraints, retained),
        start.wf(),
        main.same_task(&start),
        extends(main.rows@, start.rows@),
        forall|x: int, row: int|
            0 <= x < fixed.witness_count() && 0 <= row < fixed.degree ==> (
            #[trigger] start.rows@[x][row]) == initial_cell(fixed, start.witnesses@, x, row),
        Generator::machines_follow(machines, split),
        forall|k: int|
            0 <= k < split.len() ==> machine_ok(
                (#[trigger] split[k]).generator(),
                fixed,
                identities,
                retained,
                constraints,
            ),
        0 <= c < fixed.witness_count(),
        fixed.witness_cols.values@[c].external_view() is Some,
    ensures
        zero_filled(main.rows@)[c] == fixed.witness_cols.values@[c].external_view()->0,
{
    if main.witnesses@[c] {
        lemma_supplied_kept(fixed, start.witnesses@, start.rows@, main.rows@, c);
    } else {
        assert(machine_owns(machines, c));
        let k = choose|k: int|
            0 <= k < machines.len() && (#[trigger] machines[k]).generator().witnesses@[c];
        let m = machines[k].generator();
        let m0 = split[k].generator();
        assert(m.same_task(&m0));
        assert(machine_ok(m0, fixed, identities, retained, constraints));
        lemma_supplied_kept(fixed, m0.witnesses@, m0.rows@, m.rows@, c);
        assert(main.rows@[c] == m.rows@[c]);
        assert(zero_filled(main.rows@)[c] =~= zero_filled(m.rows@)[c]);
    }
}

/// The trace fits the data, and a column for which values were supplied
/// holds these.
pub open spec fn agrees(t: Trace, fixed: &FixedData) -> bool {
    &&& t.wf()
    &&& t.modulus == fixed.field.modulus
    &&& t.degree == fixed.degree
    &&& t.fixed == fixed.fixed_values()
    &&& t.witness.len() == fixed.witness_count()
    &&& forall|c: int|
        0 <= c < fixed.witness_count() ==> match (
        #[trigger] fixed.witness_cols.values@[c]).external_view() {
            Some(v) => t.witness[c] == v,
            None => true,
        }
}

/// The solver knows the supplied values of its columns and nothing else.
pub open spec fn at_start(g: Generator) -> bool {
    forall|c: int, row: int|
        0 <= c < g.fixed.witness_count() && 0 <= row < g.fixed.degree ==> (
        #[trigger] g.rows@[c][row]) == initial_cell(g.fixed, g.witnesses@, c, row)
}

/// A trace that has the supplied values, satisfies the identities and keeps
/// the columns within their bounds solves the part of every solver that has
/// not begun.
pub proof fn lemma_start_solution(g: Generator, t: Trace)
    requires
        g.wf(),
        at_start(g),
        agrees(t, g.fixed),
        t.satisfies(g.identities@),
        respects(t, g.global_range_constraints.witness_constraints@),
    ensures
        g.solution(t),
{
    let constraints = g.global_range_constraints.witness_constraints@;
    let limits = limits_of(g.witnesses@, constraints);
    assert forall|c: int, r: int| 0 <= c < limits.len() && 0 <= r < t.degree implies match limits[c] {
        Some(l) => (#[trigger] t.witness[c][r]) < l,
        None => true,
    } by {}
    assert forall|c: int, r: int|
        0 <= c < g.rows@.len() && 0 <= r < g.rows@[c].len() implies match #[trigger] g.rows@[c][r] {
        Some(v) => t.witness[c][r] == v,
        None => true,
    } by {
        assert(g.rows@[c][r] == initial_cell(g.fixed, g.witnesses@, c, r));
    }
    assert forall|i: int, row: int|
        0 <= i < g.identities@.len() && g.owned_identities@[i] && 0 <= row
            < g.fixed.degree implies #[trigger] t.holds_at(g.identities@[i], row) by {
        assert(t.holds(g.identities@[i]));
    }
}

/// A solver that has not begun has no cell to ask for where values were
/// supplied for every column that has a query.
pub proof fn lemma_start_quiet(g: Generator)
    requires
        g.wf(),
        at_start(g),
        forall|c: int|
            0 <= c < g.fixed.witness_count() && (
            #[trigger] g.fixed.witness_cols.values@[c]).query is Some
                ==> g.fixed.witness_cols.values@[c].external_view() is Some,
    ensures
        g.quiet(),
{
    assert forall|c: int, row: int| 0 <= row < g.fixed.degree implies !#[trigger] can_ask(
        g.fixed,
        g.witnesses@,
        g.rows@,
        c,
        row,
    ) by {
        if 0 <= c < g.witnesses@.len() {
            assert(g.rows@[c][row] == initial_cell(g.fixed, g.witnesses@, c, row));
            if g.fixed.witness_cols.values@[c].query is Some {
                assert(g.fixed.witness_cols.values@[c].external_view() is Some);
            }
        }
    }
}

/// A solver that knows nothing but what a solution of its part has finds
/// no identity contradicted and no bound violated.
pub proof fn lemma_solution_refutes(g: Generator, e: EvalError, t: Trace)
    requires
        g.wf(),
        g.failed_with(e),
        g.solution(t),
    ensures
        e is Stuck || e is Unresolved,
{
    match e {
        EvalError::ConstraintUnsatisfiable { row, identity } => {
            assert(t.holds_at(g.identities@[identity as int], row as int));
        },
        EvalError::RangeConstraintViolated { row, column } => {
            assert(g.rows@[column as int].len() == g.fixed.degree);
            let v = g.rows@[column as int][row as int]->0;
            assert(t.witness[column as int][row as int] == v);
            let limits = limits_of(
                g.witnesses@,
                g.global_range_constraints.witness_constraints@,
            );
            assert(limits[column as int] is Some ==> t.witness[column as int][row as int]
                < limits[column as int]->0);
        },
        _ => {},
    }
}

/// After a run that succeeded, a trace that has the values that the main
/// solver knows has them in every cell.
pub proof fn lemma_known_solution<'a>(
    main: Generator<'a>,
    machines: Seq<Machine<'a>>,
    fixed: &'a FixedData<'a>,
    identities: &'a Vec<Identity>,
    constraints: &'a GlobalConstraints,
    retained: Seq<bool>,
    t: Trace,
)
    requires
        all_solved(main, machines, fixed, identities, constraints, retained),
        completes(t, fixed, main.rows@),
    ensures
        t.witness == zero_filled(main.rows@),
{
    let z = zero_filled(main.rows@);
    assert forall|c: int| 0 <= c < t.witness.len() implies t.witness[c] == z[c] by {
        lemma_column_known(main, machines, fixed, identities, constraints, retained, c);
        assert(main.rows@[c].len() == fixed.degree);
        assert forall|r: int| 0 <= r < fixed.degree implies t.witness[c][r] == z[c][r] by {
            assert(main.rows@[c][r] is Some);
        }
        assert(t.witness[c] =~= z[c]);
    }
    assert(t.witness =~= z);
}

/// The trace holds, for every witness column, the values that were supplied for it.
pub open spec fn supplies(t: Trace, fixed: &FixedData) -> bool {
    &&& t.wf()
    &&& t.modulus == fixed.field.modulus
    &&& t.degree == fixed.degree
    &&& t.fixed == fixed.fixed_values()
    &&& t.witness.len() == fixed.witness_count()
    &&& forall|c: int|
        0 <= c < fixed.witness_count() ==> (#[trigger] fixed.witness_cols.values@[c]).external_view()
            == Some(t.witness[c])
}

/// Every column that an identity of the solver mentions is fully known.
pub open spec fn inputs_known(g: Generator) -> bool {
    forall|i: int, c: int|
        0 <= i < g.identities@.len() && 0 <= c < g.fixed.witness_count() && g.owned_identities@[i]
            && #[trigger] g.identities@[i].mentions(c) ==> column_known(g.rows@, c)
}

/// A solver that knows all its inputs and all its columns fails only where
/// the trace that it knows violates an identity or a bound.
pub proof fn lemma_failure_refutes(g: Generator, e: EvalError, t: Trace)
    requires
        g.wf(),
        g.failed_with(e),
        completes(t, g.fixed, g.rows@),
        columns_known(g.witnesses@, g.rows@),
        inputs_known(g),
    ensures
        !(t.satisfies(g.identities@) && respects(
            t,
            g.global_range_constraints.witness_constraints@,
        )),
{
    match e {
        EvalError::ConstraintUnsatisfiable { row, identity } => {
            let constraints = g.global_range_constraints.witness_constraints@;
            if respects(t, constraints) {
                let limits = limits_of(g.witnesses@, constraints);
                assert forall|c: int, r: int|
                    0 <= c < limits.len() && 0 <= r < t.degree implies match limits[c] {
                    Some(l) => (#[trigger] t.witness[c][r]) < l,
                    None => true,
                } by {}
                assert(keeps(t, limits));
                assert(!t.holds_at(g.identities@[identity as int], row as int));
                assert(!t.holds(g.identities@[identity as int]));
            }
        },
        EvalError::Stuck { row, column } => {
            assert(column_known(g.rows@, column as int));
            assert(g.rows@[column as int].len() == g.fixed.degree);
        },
        EvalError::Unresolved { row, identity } => {
            let c = choose|c: int|
                0 <= c < g.fixed.witness_count() && #[trigger] g.identities@[identity as int].mentions(
                    c,
                ) && !column_known(g.rows@, c);
            assert(column_known(g.rows@, c));
        },
        EvalError::RangeConstraintViolated { row, column } => {
            assert(g.rows@[column as int].len() == g.fixed.degree);
            let v = g.rows@[column as int][row as int]->0;
            assert(t.witness[column as int][row as int] == v);
        },
    }
}

/// A machine whose columns were all supplied holds exactly the supplied values.
pub proof fn lemma_machine_supplied<'a>(
    m: Generator<'a>,
    m0: Generator<'a>,
    fixed: &'a FixedData<'a>,
    identities: &'a Vec<Identity>,
    constraints: &'a GlobalConstraints,
    retained: Seq<bool>,
    t: Trace,
)
    requires
        machine_ok(m0, fixed, identities, retained, constraints),
        m.wf(),
        m.same_task(&m0),
        extends(m.rows@, m0.rows@),
        others_unchanged(m0.witnesses@, m.rows@, m0.rows@),
        supplies(t, fixed),
    ensures
        completes(t, fixed, m.rows@),
        columns_known(m.witnesses@, m.rows@),
        inputs_known(m),
        forall|c: int, row: int|
            0 <= c < fixed.witness_count() && m.witnesses@[c] && 0 <= row < fixed.degree ==> (
            #[trigger] m.rows@[c][row]) == Some(t.witness[c][row]),
{
    assert forall|c: int, row: int|
        0 <= c < fixed.witness_count() && m.witnesses@[c] && 0 <= row < fixed.degree implies (
    #[trigger] m.rows@[c][row]) == Some(t.witness[c][row]) by {
        assert(fixed.witness_cols.values@[c].external_view() == Some(t.witness[c]));
        assert(m0.rows@[c][row] == initial_cell(fixed, m0.witnesses@, c, row));
        assert(m0.rows@[c].len() == fixed.degree);
        assert(m.rows@[c][row] == m0.rows@[c][row]);
    }
    assert forall|c: int, r: int|
        0 <= c < m.rows@.len() && 0 <= r < m.rows@[c].len() implies match #[trigger] m.rows@[c][r] {
        Some(v) => t.witness[c][r] == v,
        None => true,
    } by {
        assert(m.rows@[c].len() == fixed.degree);
        if m.witnesses@[c] {
            assert(m.rows@[c][r] == Some(t.witness[c][r]));
        } else {
            assert(m.rows@[c] == m0.rows@[c]);
            assert(m0.rows@[c][r] == initial_cell(fixed, m0.witnesses@, c, r));
        }
    }
    assert forall|c: int| 0 <= c < m.witnesses@.len() && m.witnesses@[c] implies #[trigger] column_known(
        m.rows@,
        c,
    ) by {
        assert forall|r: int| 0 <= r < m.rows@[c].len() implies (#[trigger] m.rows@[c][r]) is Some by {
            assert(m.rows@[c].len() == fixed.degree);
            assert(m.rows@[c][r] == Some(t.witness[c][r]));
        }
    }
    assert forall|i: int, c: int|
        0 <= i < m.identities@.len() && 0 <= c < m.fixed.witness_count() && m.owned_identities@[i]
            && #[trigger] m.identities@[i].mentions(c) implies column_known(m.rows@, c) by {
        assert(m0.owned_identities@[i]);
        assert(m0.witnesses@[c]);
    }
}

/// Where values were supplied for all columns, a machine fails only where
/// the supplied values violate an identity or a bound.
pub proof fn lemma_machine_refutes<'a>(
    m: Generator<'a>,
    m0: Generator<'a>,
    e: EvalError,
    fixed: &'a FixedData<'a>,
    identities: &'a Vec<Identity>,
    constraints: &'a GlobalConstraints,
    retained: Seq<bool>,
    t: Trace,
)
    requires
        machine_ok(m0, fixed, identities, retained, constraints),
        m.wf(),
        m.same_task(&m0),
        extends(m.rows@, m0.rows@),
        others_unchanged(m0.witnesses@, m.rows@, m0.rows@),
        m.failed_with(e),
        supplies(t, fixed),
    ensures
        !(t.satisfies(identities@) && respects(t, constraints.witness_constraints@)),
{
    lemma_machine_supplied(m, m0, fixed, identities, constraints, retained, t);
    lemma_failure_refutes(m, e, t);
}

/// Where values were supplied for all columns, the main solver fails only
/// where the supplied values violate an identity or a bound.
pub proof fn lemma_main_refutes<'a>(
    main: Generator<'a>,
    machines: Seq<Machine<'a>>,
    start: Generator<'a>,
    split: Seq<Machine<'a>>,
    e: EvalError,
    fixed: &'a FixedData<'a>,
    identities: &'a Vec<Identity>,
    constraints: &'a GlobalConstraints,
    retained: Seq<bool>,
    t: Trace,
)
    requires
        start.wf(),
        start.fixed == fixed,
        start.identities == identities,
        start.global_range_constraints == constraints,
        forall|x: int, row: int|
            0 <= x < fixed.witness_count() && 0 <= row < fixed.degree ==> (
            #[trigger] start.rows@[x][row]) == initial_cell(fixed, start.witnesses@, x, row),
        partition(split, start.owned_identities@, start.witnesses@, retained),
        forall|k: int|
            0 <= k < split.len() ==> machine_ok(
                (#[trigger] split[k]).generator(),
                fixed,
                identities,
                retained,
                constraints,
            ),
        main.wf(),
        main.same_task(&start),
        extends(main.rows@, start.rows@),
        Generator::machines_follow(machines, split),
        main.machines_done(machines),
        main.failed_with(e),
        supplies(t, fixed),
    ensures
        !(t.satisfies(identities@) && respects(t, constraints.witness_constraints@)),
{
    assert forall|c: int, row: int|
        0 <= c < fixed.witness_count() && 0 <= row < fixed.degree implies (
    #[trigger] main.rows@[c][row]) == Some(t.witness[c][row]) by {
        assert(fixed.witness_cols.values@[c].external_view() == Some(t.witness[c]));
        if main.witnesses@[c] {
            assert(start.rows@[c][row] == initial_cell(fixed, start.witnesses@, c, row));
            assert(start.rows@[c].len() == fixed.degree);
            assert(main.rows@[c][row] == start.rows@[c][row]);
        } else {
            assert(machine_owns(split, c));
            let k = choose|k: int|
                0 <= k < split.len() && (#[trigger] split[k]).generator().witnesses@[c];
            let m = machines[k].generator();
            let m0 = split[k].generator();
            assert(m.same_task(&m0));
            lemma_machine_supplied(m, m0, fixed, identities, constraints, retained, t);
            assert(main.imported(&m));
            assert(main.rows@[c] == m.rows@[c]);
            assert(m.rows@[c][row] == Some(t.witness[c][row]));
        }
    }
    assert forall|c: int| 0 <= c < fixed.witness_count() implies #[trigger] column_known(
        main.rows@,
        c,
    ) by {
        assert forall|r: int| 0 <= r < main.rows@[c].len() implies (
        #[trigger] main.rows@[c][r]) is Some by {
            assert(main.rows@[c].len() == fixed.degree);
            assert(main.rows@[c][r] == Some(t.witness[c][r]));
        }
    }
    assert forall|c: int, r: int|
        0 <= c < main.rows@.len() && 0 <= r < main.rows@[c].len() implies match #[trigger] main.rows@[c][r] {
        Some(v) => t.witness[c][r] == v,
        None => true,
    } by {
        assert(main.rows@[c].len() == fixed.degree);
        assert(main.rows@[c][r] == Some(t.witness[c][r]));
    }
    lemma_failure_refutes(main, e, t);
}

/// What an error says of the input, whichever solver failed with it: an
/// identity that is contradicted is one that was kept; a cell that nothing
/// determines is in a column for which no values were supplied; a bound
/// that is violated is one that an identity captures; and no identity
/// reads an open cell when the columns are filled.
pub open spec fn failure_located<'a>(
    e: EvalError,
    fixed: &'a FixedData<'a>,
    identities: Seq<Identity>,
    constraints: Seq<Option<crate::range_constraints::RangeConstraint>>,
) -> bool {
    match e {
        EvalError::ConstraintUnsatisfiable { row, identity } => {
            &&& row < fixed.degree
            &&& identity < identities.len()
            &&& !captured(fixed, identities[identity as int])
        },
        EvalError::Stuck { row, column } => {
            &&& row < fixed.degree
            &&& column < fixed.witness_count()
            &&& fixed.witness_cols.values@[column as int].external_view() is None
        },
        EvalError::Unresolved { row, identity } => false,
        EvalError::RangeConstraintViolated { row, column } => {
            &&& row < fixed.degree
            &&& column < fixed.witness_count()
            &&& exists|i: int, limit: int|
                0 <= i < identities.len() && #[trigger] captures(
                    fixed,
                    identities[i],
                    column as int,
                    limit,
                )
        },
    }
}

/// A solver that started from the supplied values of its columns, that
/// has taken identities that are kept only, and that knows all its inputs
/// once its own columns are filled, fails as `failure_located` says.
pub proof fn lemma_failure_located<'a>(
    g: Generator<'a>,
    start: Generator<'a>,
    e: EvalError,
    fixed: &'a FixedData<'a>,
    identities: &'a Vec<Identity>,
    constraints: &'a GlobalConstraints,
    retained: Seq<bool>,
)
    requires
        g.wf(),
        g.fixed == fixed,
        g.identities == identities,
        g.global_range_constraints == constraints,
        g.same_task(&start),
        extends(g.rows@, start.rows@),
        forall|x: int, row: int|
            0 <= x < fixed.witness_count() && 0 <= row < fixed.degree ==> (
            #[trigger] start.rows@[x][row]) == initial_cell(fixed, start.witnesses@, x, row),
        constraints_of(fixed, identities@, constraints.witness_constraints@),
        retained_of(fixed, identities@, retained),
        forall|i: int|
            0 <= i < identities@.len() && #[trigger] g.owned_identities@[i] ==> retained[i],
        columns_known(g.witnesses@, g.rows@) ==> inputs_known(g),
        g.failed_with(e),
    ensures
        failure_located(e, fixed, identities@, constraints.witness_constraints@),
{
    match e {
        EvalError::ConstraintUnsatisfiable { row, identity } => {
            assert(retained[identity as int]);
        },
        EvalError::Stuck { row, column } => {
            let c = column as int;
            if fixed.witness_cols.values@[c].external_view() is Some {
                assert(start.rows@[c][row as int] == initial_cell(
                    fixed,
                    start.witnesses@,
                    c,
                    row as int,
                ));
                assert(start.rows@[c].len() == fixed.degree);
                assert(g.rows@[c][row as int] == start.rows@[c][row as int]);
            }
        },
        EvalError::Unresolved { row, identity } => {
            let c = choose|c: int|
                0 <= c < g.fixed.witness_count() && #[trigger] g.identities@[identity as int].mentions(
                    c,
                ) && !column_known(g.rows@, c);
            assert(column_known(g.rows@, c));
        },
        EvalError::RangeConstraintViolated { row, column } => {
            let c = column as int;
            let cs = constraints.witness_constraints@;
            assert(cs[c] is Some);
            assert(bound_justified(fixed, identities@, cs, c));
            let i = choose|i: int|
                0 <= i < identities@.len() && #[trigger] captures(
                    fixed,
                    identities@[i],
                    c,
                    cs[c]->0.limit as int,
                );
            assert(captures(fixed, identities@[i], c, cs[c]->0.limit as int));
        },
    }
}

/// A machine knows all its inputs once its columns are filled.
pub proof fn lemma_machine_inputs<'a>(m: Generator<'a>)
    requires
        m.wf(),
        self_contained(m),
    ensures
        columns_known(m.witnesses@, m.rows@) ==> inputs_known(m),
{
    if columns_known(m.witnesses@, m.rows@) {
        assert forall|i: int, c: int|
            0 <= i < m.identities@.len() && 0 <= c < m.fixed.witness_count()
                && m.owned_identities@[i] && #[trigger] m.identities@[i].mentions(
                c,
            ) implies column_known(m.rows@, c) by {
            assert(m.witnesses@[c]);
        }
    }
}

/// The main solver knows all its inputs once its columns are filled and
/// the machines are done.
pub proof fn lemma_main_inputs<'a>(
    main: Generator<'a>,
    machines: Seq<Machine<'a>>,
    split: Seq<Machine<'a>>,
    retained: Seq<bool>,
)
    requires
        main.wf(),
        main.machines_fit(split),
        partition(split, main.owned_identities@, main.witnesses@, retained),
        Generator::machines_follow(machines, split),
        main.machines_done(machines),
    ensures
        columns_known(main.witnesses@, main.rows@) ==> inputs_known(main),
{
    if columns_known(main.witnesses@, main.rows@) {
        assert forall|c: int| 0 <= c < main.fixed.witness_count() implies #[trigger] column_known(
            main.rows@,
            c,
        ) by {
            if !main.witnesses@[c] {
                assert(machine_owns(split, c));
                let k = choose|k: int|
                    0 <= k < split.len() && (#[trigger] split[k]).generator().witnesses@[c];
                assert(0 <= k < machines.len());
                let m = machines[k].generator();
                assert(m.wf());
                assert(split[k].generator().same_system(&main));
                assert(m.same_task(&split[k].generator()));
                assert(m.witnesses@[c]);
                assert(m.solved() && main.imported(&m));
                assert(main.rows@[c] == m.rows@[c]);
                assert(column_known(m.rows@, c));
            }
        }
    }
}

} // verus!
