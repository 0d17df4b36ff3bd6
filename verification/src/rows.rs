//! The witness cells found so far.
//!
//! A cell is the value of one witness column on one row. While a trace is
//! being solved a cell is either known, and then keeps its value, or open.

use vstd::prelude::*;
use crate::trace::Trace;
use crate::FixedData;

verus! {

/// The cells of all witness columns, `cells[column][row]`; `None` is an open cell.
pub type Cells = Seq<Seq<Option<u64>>>;

/// The witness columns with 0 in every open cell.
pub open spec fn zero_filled(cells: Cells) -> Seq<Seq<u64>> {
    Seq::new(
        cells.len(),
        |c: int|
            Seq::new(
                cells[c].len(),
                |r: int|
                    match cells[c][r] {
                        Some(v) => v,
                        None => 0u64,
                    },
            ),
    )
}

/// The trace that the fixed columns and the cells make, with 0 in every open cell.
pub open spec fn trace_of(fixed: &FixedData, cells: Cells) -> Trace {
    Trace {
        modulus: fixed.field.modulus as int,
        degree: fixed.degree as int,
        fixed: fixed.fixed_values(),
        witness: zero_filled(cells),
    }
}

/// There is a cell for every witness column on every row, and every known
/// cell holds a field element.
pub open spec fn cells_wf(fixed: &FixedData, cells: Cells) -> bool {
    &&& cells.len() == fixed.witness_count()
    &&& forall|c: int| 0 <= c < cells.len() ==> (#[trigger] cells[c]).len() == fixed.degree
    &&& forall|c: int, r: int|
        0 <= c < cells.len() && 0 <= r < fixed.degree ==> match #[trigger] cells[c][r] {
            Some(v) => v < fixed.field.modulus,
            None => true,
        }
}

/// Every cell that is known in `old` is known in `new`, with the same value.
pub open spec fn extends(new: Cells, old: Cells) -> bool {
    &&& new.len() == old.len()
    &&& forall|c: int| 0 <= c < old.len() ==> (#[trigger] new[c]).len() == old[c].len()
    &&& forall|c: int, r: int|
        0 <= c < old.len() && 0 <= r < old[c].len() && old[c][r] is Some ==> #[trigger] new[c][r]
            == old[c][r]
}

/// The trace gives every known cell its value.
pub open spec fn completes(t: Trace, fixed: &FixedData, cells: Cells) -> bool {
    &&& t.wf()
    &&& t.modulus == fixed.field.modulus
    &&& t.degree == fixed.degree
    &&& t.fixed == fixed.fixed_values()
    &&& t.witness.len() == cells.len()
    &&& forall|c: int, r: int|
        0 <= c < cells.len() && 0 <= r < cells[c].len() ==> match #[trigger] cells[c][r] {
            Some(v) => t.witness[c][r] == v,
            None => true,
        }
}

/// Every cell of the column is known.
pub open spec fn column_known(cells: Cells, column: int) -> bool {
    forall|r: int| 0 <= r < cells[column].len() ==> (#[trigger] cells[column][r]) is Some
}

/// The number of open cells of a column.
pub open spec fn open_in(column: Seq<Option<u64>>) -> nat
    decreases column.len(),
{
    if column.len() == 0 {
        0
    } else {
        open_in(column.drop_last()) + if column.last() is None {
            1nat
        } else {
            0nat
        }
    }
}

/// The number of open cells.
pub open spec fn open_count(cells: Cells) -> nat
    decreases cells.len(),
{
    if cells.len() == 0 {
        0
    } else {
        open_count(cells.drop_last()) + open_in(cells.last())
    }
}

/// A column in which known cells kept their values has no more open cells
/// than before, and fewer if it changed.
proof fn lemma_open_in(new: Seq<Option<u64>>, old: Seq<Option<u64>>)
    requires
        new.len() == old.len(),
        forall|r: int| 0 <= r < old.len() && old[r] is Some ==> #[trigger] new[r] == old[r],
    ensures
        open_in(new) <= open_in(old),
        new != old ==> open_in(new) < open_in(old),
    decreases old.len(),
{
    if old.len() > 0 {
        let n = new.drop_last();
        let o = old.drop_last();
        assert forall|r: int| 0 <= r < o.len() && o[r] is Some implies #[trigger] n[r] == o[r] by {
            assert(new[r] == old[r]);
        }
        lemma_open_in(n, o);
        if n == o && new.last() == old.last() {
            assert forall|r: int| 0 <= r < new.len() implies new[r] == old[r] by {
                if r < new.len() - 1 {
                    assert(n[r] == new[r] && o[r] == old[r]);
                }
            }
            assert(new =~= old);
        }
    } else {
        assert(new =~= old);
    }
}

/// Cells that extend others have no more open cells, and fewer if they differ.
pub proof fn lemma_fewer_open(new: Cells, old: Cells)
    requires
        extends(new, old),
    ensures
        open_count(new) <= open_count(old),
        new != old ==> open_count(new) < open_count(old),
    decreases old.len(),
{
    if old.len() > 0 {
        let n = new.drop_last();
        let o = old.drop_last();
        let last = old.len() - 1;
        assert(extends(n, o)) by {
            assert forall|c: int| 0 <= c < o.len() implies (#[trigger] n[c]).len() == o[c].len() by {
                assert(new[c].len() == old[c].len());
            }
            assert forall|c: int, r: int|
                0 <= c < o.len() && 0 <= r < o[c].len() && o[c][r] is Some implies #[trigger] n[c][r]
                == o[c][r] by {
                assert(new[c][r] == old[c][r]);
            }
        }
        lemma_fewer_open(n, o);
        assert(new[last].len() == old[last].len());
        assert forall|r: int| 0 <= r < old[last].len() && old[last][r] is Some implies #[trigger] new[last][r]
            == old[last][r] by {}
        lemma_open_in(new.last(), old.last());
        if n == o && new.last() == old.last() {
            assert forall|c: int| 0 <= c < new.len() implies new[c] == old[c] by {
                if c < new.len() - 1 {
                    assert(n[c] == new[c] && o[c] == old[c]);
                }
            }
            assert(new =~= old);
        }
    } else {
        assert(new =~= old);
    }
}

/// Extending is transitive.
pub proof fn lemma_extends_transitive(a: Cells, b: Cells, c: Cells)
    requires
        extends(b, a),
        extends(c, b),
    ensures
        extends(c, a),
{
    assert forall|k: int, r: int|
        0 <= k < a.len() && 0 <= r < a[k].len() && a[k][r] is Some implies #[trigger] c[k][r]
        == a[k][r] by {
        assert(b[k].len() == a[k].len());
        assert(b[k][r] == a[k][r]);
    }
    assert forall|k: int| 0 <= k < a.len() implies (#[trigger] c[k]).len() == a[k].len() by {
        assert(b[k].len() == a[k].len());
    }
}

/// The trace of well-formed cells over well-formed fixed data is well-formed,
/// and it completes the cells.
pub proof fn lemma_trace_of_wf(fixed: &FixedData, cells: Cells)
    requires
        fixed.wf(),
        cells_wf(fixed, cells),
    ensures
        trace_of(fixed, cells).wf(),
        completes(trace_of(fixed, cells), fixed, cells),
        trace_of(fixed, cells).fixed.len() == fixed.fixed_count(),
        trace_of(fixed, cells).witness.len() == fixed.witness_count(),
{
    let t = trace_of(fixed, cells);
    assert forall|c: int| 0 <= c < t.fixed.len() implies (#[trigger] t.fixed[c]).len()
        == t.degree by {
        assert(fixed.fixed_cols.values@[c].values@.len() == fixed.degree);
    }
    assert forall|c: int, r: int| 0 <= c < t.fixed.len() && 0 <= r < t.degree implies (
    #[trigger] t.fixed[c][r]) < t.modulus by {
        assert(fixed.fixed_cols.values@[c].values@.len() == fixed.degree);
    }
    assert forall|c: int| 0 <= c < t.witness.len() implies (#[trigger] t.witness[c]).len()
        == t.degree by {
        assert(cells[c].len() == fixed.degree);
    }
    assert forall|c: int, r: int| 0 <= c < t.witness.len() && 0 <= r < t.degree implies (
    #[trigger] t.witness[c][r]) < t.modulus by {
        assert(cells[c].len() == fixed.degree);
    }
}

/// The table of witness cells.
pub struct Rows {
    pub cells: Vec<Vec<Option<u64>>>,
}

impl View for Rows {
    type V = Cells;

    open spec fn view(&self) -> Cells {
        Seq::new(self.cells@.len(), |c: int| self.cells@[c]@)
    }
}

impl Rows {
    pub open spec fn wf(&self, fixed: &FixedData) -> bool {
        cells_wf(fixed, self@)
    }

    /// The table in which every cell is open.
    pub fn new(fixed: &FixedData) -> (r: Rows)
        requires
            fixed.wf(),
        ensures
            r.wf(fixed),
            forall|c: int, row: int|
                0 <= c < fixed.witness_count() && 0 <= row < fixed.degree ==> (
                #[trigger] r@[c][row]) is None,
    {
        let mut cells: Vec<Vec<Option<u64>>> = Vec::new();
        let width: usize = fixed.witness_cols.len();
        let height: usize = fixed.degree as usize;
        let mut c: usize = 0;
        while c < width
            invariant
                c <= width,
                cells@.len() == c,
                forall|k: int| 0 <= k < c ==> (#[trigger] cells@[k])@.len() == height,
                forall|k: int, row: int|
                    0 <= k < c && 0 <= row < height ==> (#[trigger] cells@[k]@[row]) is None,
            decreases width - c,
        {
            let mut column: Vec<Option<u64>> = Vec::new();
            let mut row: usize = 0;
            while row < height
                invariant
                    row <= height,
                    column@.len() == row,
                    forall|k: int| 0 <= k < row ==> (#[trigger] column@[k]) is None,
                decreases height - row,
            {
                column.push(None);
                row += 1;
            }
            cells.push(column);
            c += 1;
        }
        Rows { cells }
    }

    /// The cell of a column on a row.
    pub fn get(&self, fixed: &FixedData, column: usize, row: usize) -> (r: Option<u64>)
        requires
            self.wf(fixed),
            column < fixed.witness_count(),
            row < fixed.degree,
        ensures
            r == self@[column as int][row as int],
    {
        proof {
            assert(self@.len() == self.cells@.len());
            assert(self@[column as int] == self.cells@[column as int]@);
        }
        self.cells[column][row]
    }

    /// Makes an open cell known.
    pub fn set(&mut self, fixed: &FixedData, column: usize, row: usize, value: u64)
        requires
            old(self).wf(fixed),
            column < fixed.witness_count(),
            row < fixed.degree,
            value < fixed.field.modulus,
            old(self)@[column as int][row as int] is None,
        ensures
            final(self).wf(fixed),
            final(self)@ == old(self)@.update(
                column as int,
                old(self)@[column as int].update(row as int, Some(value)),
            ),
            extends(final(self)@, old(self)@),
    {
        proof {
            assert(self@.len() == self.cells@.len());
            assert(self@[column as int] == self.cells@[column as int]@);
        }
        self.cells[column][row] = Some(value);
        proof {
            let before = old(self)@;
            let after = self@;
            let expected = before.update(
                column as int,
                before[column as int].update(row as int, Some(value)),
            );
            assert(after.len() == expected.len());
            assert forall|c: int| 0 <= c < after.len() implies after[c] == expected[c] by {
                if c == column {
                    assert(after[c] =~= expected[c]);
                } else {
                    assert(after[c] =~= expected[c]);
                }
            }
            assert(after =~= expected);
        }
    }

    /// Takes a column over from another table. The column must be open here.
    pub fn copy_column(&mut self, fixed: &FixedData, source: &Rows, column: usize)
        requires
            old(self).wf(fixed),
            source.wf(fixed),
            column < fixed.witness_count(),
            forall|row: int|
                0 <= row < fixed.degree ==> (#[trigger] old(self)@[column as int][row]) is None,
        ensures
            final(self).wf(fixed),
            final(self)@ == old(self)@.update(column as int, source@[column as int]),
            extends(final(self)@, old(self)@),
    {
        proof {
            assert(self@.len() == self.cells@.len());
            assert(source@.len() == source.cells@.len());
            assert(source@[column as int] == source.cells@[column as int]@);
            assert(self@[column as int] == self.cells@[column as int]@);
        }
        let height: usize = source.cells[column].len();
        let mut copy: Vec<Option<u64>> = Vec::new();
        let mut row: usize = 0;
        while row < height
            invariant
                column < source.cells@.len(),
                height == source.cells@[column as int]@.len(),
                row <= height,
                copy@ == source.cells@[column as int]@.take(row as int),
            decreases height - row,
        {
            copy.push(source.cells[column][row]);
            proof {
                let s = source.cells@[column as int]@;
                assert(s.take(row as int + 1) == s.take(row as int).push(s[row as int]));
            }
            row += 1;
        }
        proof {
            let s = source.cells@[column as int]@;
            assert(s.take(height as int) == s);
        }
        self.cells[column] = copy;
        proof {
            let before = old(self)@;
            let after = self@;
            let expected = before.update(column as int, source@[column as int]);
            assert(after.len() == expected.len());
            assert forall|c: int| 0 <= c < after.len() implies after[c] == expected[c] by {
                assert(after[c] =~= expected[c]);
            }
            assert(after =~= expected);
            assert forall|c: int, r: int|
                0 <= c < after.len() && 0 <= r < fixed.degree implies match #[trigger] after[c][r] {
                Some(v) => v < fixed.field.modulus,
                None => true,
            } by {
                if c == column {
                    assert(after[c][r] == source@[c][r]);
                } else {
                    assert(after[c][r] == before[c][r]);
                }
            }
            assert forall|c: int| 0 <= c < after.len() implies (#[trigger] after[c]).len()
                == fixed.degree by {
                if c == column {
                    assert(source@[c].len() == fixed.degree);
                } else {
                    assert(before[c].len() == fixed.degree);
                }
            }
        }
    }
}

} // verus!
