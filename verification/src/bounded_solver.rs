//! Solving an affine expression whose open cells are bounded.
//!
//! Where several cells are open, the expression alone does not tell their
//! values. But if every open cell is known to lie below a limit, there are
//! finitely many combinations of values; if exactly one of them makes the
//! expression zero, it gives the values of all the open cells. A number
//! that is the sum of bits with different weights is taken apart in this way.

use vstd::prelude::*;
use crate::affine_expression::{dot, ints, AffineExpression, AffineForm};
use crate::eval_result::{Cell, Constraint};
use crate::field::{congruent, lemma_congruent_add, Field};
use crate::setup::copy_values;

verus! {

/// The largest number of combinations that are tried.
pub const MAX_COMBINATIONS: u64 = 65536;

/// The value of a cell, where the cells of the row have the values `here`
/// and the cells of the next row the values `there`.
pub open spec fn cell_value(here: Seq<int>, there: Seq<int>, cell: Cell) -> int {
    if cell.next {
        there[cell.column as int]
    } else {
        here[cell.column as int]
    }
}

/// Whether the cell is open in the form: its coefficient is not zero.
pub open spec fn is_open(form: AffineForm, cell: Cell) -> bool {
    cell.column < form.current.len() && form.coefficient(cell.column as int, cell.next) != 0
}

/// The cells are the open cells of the form, each listed once.
pub open spec fn lists_open(form: AffineForm, unknowns: Seq<Cell>) -> bool {
    &&& forall|j: int| 0 <= j < unknowns.len() ==> is_open(form, #[trigger] unknowns[j])
    &&& forall|cell: Cell| #[trigger]
        is_open(form, cell) ==> exists|j: int|
            0 <= j < unknowns.len() && #[trigger] unknowns[j] == cell
    &&& forall|i: int, j: int|
        0 <= i < j < unknowns.len() ==> #[trigger] unknowns[i] != #[trigger] unknowns[j]
}

/// Whether the cell has a limit and its value lies below it.
pub open spec fn in_limit(
    here: Seq<int>,
    there: Seq<int>,
    limits: Seq<Option<u64>>,
    cell: Cell,
) -> bool {
    match limits[cell.column as int] {
        Some(l) => 0 <= cell_value(here, there, cell) < l,
        None => false,
    }
}

/// Whether the values `x` keep every listed cell within its limit and
/// agree with the values `c` on the first `i` of the listed cells.
pub open spec fn fits(
    x_here: Seq<int>,
    x_there: Seq<int>,
    limits: Seq<Option<u64>>,
    unknowns: Seq<Cell>,
    i: int,
    c_here: Seq<int>,
    c_there: Seq<int>,
) -> bool {
    &&& x_here.len() == limits.len()
    &&& x_there.len() == limits.len()
    &&& forall|j: int|
        0 <= j < unknowns.len() ==> in_limit(x_here, x_there, limits, #[trigger] unknowns[j])
    &&& forall|j: int|
        0 <= j < i && j < unknowns.len() ==> cell_value(x_here, x_there, #[trigger] unknowns[j])
            == cell_value(c_here, c_there, unknowns[j])
}

/// Whether two assignments of values give every listed cell the same value.
pub open spec fn agree(
    x_here: Seq<int>,
    x_there: Seq<int>,
    y_here: Seq<int>,
    y_there: Seq<int>,
    unknowns: Seq<Cell>,
) -> bool {
    forall|j: int|
        0 <= j < unknowns.len() ==> cell_value(x_here, x_there, #[trigger] unknowns[j])
            == cell_value(y_here, y_there, unknowns[j])
}

/// The sum of products depends only on the cells whose coefficient is not zero.
pub proof fn lemma_dot_agree(a: Seq<int>, x: Seq<int>, y: Seq<int>, n: int)
    requires
        0 <= n <= a.len(),
        forall|j: int| 0 <= j < n && a[j] != 0 ==> #[trigger] x[j] == y[j],
    ensures
        dot(a, x, n) == dot(a, y, n),
    decreases n,
{
    if n > 0 {
        lemma_dot_agree(a, x, y, n - 1);
        if a[n - 1] == 0 {
            assert(a[n - 1] * x[n - 1] == 0) by (nonlinear_arith)
                requires
                    a[n - 1] == 0,
            ;
            assert(a[n - 1] * y[n - 1] == 0) by (nonlinear_arith)
                requires
                    a[n - 1] == 0,
            ;
        } else {
            assert(x[n - 1] == y[n - 1]);
        }
    }
}

/// The value of a form depends only on its open cells.
pub proof fn lemma_value_agree(
    form: AffineForm,
    unknowns: Seq<Cell>,
    x_here: Seq<int>,
    x_there: Seq<int>,
    y_here: Seq<int>,
    y_there: Seq<int>,
    m: int,
)
    requires
        form.current.len() == form.next.len(),
        form.current.len() <= usize::MAX,
        lists_open(form, unknowns),
        agree(x_here, x_there, y_here, y_there, unknowns),
    ensures
        form.value(x_here, x_there, m) == form.value(y_here, y_there, m),
{
    let width = form.current.len() as int;
    assert forall|c: int| 0 <= c < width && form.current[c] != 0 implies #[trigger] x_here[c]
        == y_here[c] by {
        let cell = Cell { column: c as usize, next: false };
        assert(is_open(form, cell));
        let j = choose|j: int| 0 <= j < unknowns.len() && #[trigger] unknowns[j] == cell;
        assert(cell_value(x_here, x_there, unknowns[j]) == cell_value(
            y_here,
            y_there,
            unknowns[j],
        ));
    }
    assert forall|c: int| 0 <= c < width && form.next[c] != 0 implies #[trigger] x_there[c]
        == y_there[c] by {
        let cell = Cell { column: c as usize, next: true };
        assert(is_open(form, cell));
        let j = choose|j: int| 0 <= j < unknowns.len() && #[trigger] unknowns[j] == cell;
        assert(cell_value(x_here, x_there, unknowns[j]) == cell_value(
            y_here,
            y_there,
            unknowns[j],
        ));
    }
    lemma_dot_agree(form.current, x_here, y_here, width);
    lemma_dot_agree(form.next, x_there, y_there, width);
}

/// The constant term plus the first `n` products, in the field.
fn partial_sum(field: &Field, start: u64, a: &Vec<u64>, x: &Vec<u64>) -> (r: u64)
    requires
        field.wf(),
        start < field.modulus,
        a@.len() == x@.len(),
    ensures
        r < field.modulus,
        congruent(
            r as int,
            start + dot(ints(a@), ints(x@), a@.len() as int),
            field.modulus as int,
        ),
{
    let ghost m = field.modulus as int;
    let mut sum: u64 = start;
    let mut k: usize = 0;
    while k < a.len()
        invariant
            field.wf(),
            m == field.modulus,
            a@.len() == x@.len(),
            k <= a@.len(),
            sum < field.modulus,
            congruent(sum as int, start + dot(ints(a@), ints(x@), k as int), m),
        decreases a.len() - k,
    {
        let product: u64 = field.mul(a[k], x[k]);
        let next: u64 = field.add(sum, product);
        proof {
            let p = a@[k as int] as int * x@[k as int] as int;
            let before = start + dot(ints(a@), ints(x@), k as int);
            vstd::arithmetic::div_mod::lemma_mod_twice(p, m);
            assert(congruent(product as int, p, m));
            lemma_congruent_add(sum as int, before, product as int, p, m);
            vstd::arithmetic::div_mod::lemma_mod_twice(sum + product, m);
            assert(congruent(next as int, sum + product, m));
            assert(ints(a@)[k as int] == a@[k as int]);
            assert(ints(x@)[k as int] == x@[k as int]);
        }
        sum = next;
        k += 1;
    }
    sum
}

/// The value of an affine expression, where the cells of the row have the
/// values `here` and the cells of the next row the values `there`.
pub fn value_at(form: &AffineExpression, here: &Vec<u64>, there: &Vec<u64>, field: &Field) -> (r:
    u64)
    requires
        field.wf(),
        form.wf(form@.current.len() as int, *field),
        here@.len() == form@.current.len(),
        there@.len() == form@.current.len(),
    ensures
        r == form@.value(ints(here@), ints(there@), field.modulus as int),
{
    let ghost m = field.modulus as int;
    let first: u64 = partial_sum(field, form.offset, &form.current, here);
    let second: u64 = partial_sum(field, first, &form.next, there);
    proof {
        let a = dot(ints(form.current@), ints(here@), form.current@.len() as int);
        let b = dot(ints(form.next@), ints(there@), form.next@.len() as int);
        lemma_congruent_add(first as int, form.offset + a, b, b, m);
        assert(congruent(second as int, form.offset + a + b, m));
        vstd::arithmetic::div_mod::lemma_small_mod(second as nat, m as nat);
    }
    second
}

/// What a search through the combinations finds.
pub enum Found {
    /// No combination makes the expression zero.
    Nothing,
    /// One combination does; these are its values.
    One(Vec<u64>, Vec<u64>),
    /// Several combinations do.
    Several,
}

/// What a result of the search says of the combinations that fit.
pub open spec fn found_meaning(
    found: Found,
    form: AffineForm,
    m: int,
    limits: Seq<Option<u64>>,
    unknowns: Seq<Cell>,
    i: int,
    c_here: Seq<int>,
    c_there: Seq<int>,
) -> bool {
    match found {
        Found::Nothing => forall|x_here: Seq<int>, x_there: Seq<int>| #[trigger]
            fits(x_here, x_there, limits, unknowns, i, c_here, c_there) ==> form.value(
                x_here,
                x_there,
                m,
            ) != 0,
        Found::One(a_here, a_there) => {
            &&& fits(ints(a_here@), ints(a_there@), limits, unknowns, i, c_here, c_there)
            &&& form.value(ints(a_here@), ints(a_there@), m) == 0
            &&& forall|x_here: Seq<int>, x_there: Seq<int>| #[trigger]
                fits(x_here, x_there, limits, unknowns, i, c_here, c_there) && form.value(
                    x_here,
                    x_there,
                    m,
                ) == 0 ==> agree(x_here, x_there, ints(a_here@), ints(a_there@), unknowns)
        },
        Found::Several => exists|
            x_here: Seq<int>,
            x_there: Seq<int>,
            y_here: Seq<int>,
            y_there: Seq<int>,
        |
            #[trigger] fits(x_here, x_there, limits, unknowns, i, c_here, c_there)
                && #[trigger] fits(y_here, y_there, limits, unknowns, i, c_here, c_there)
                && form.value(x_here, x_there, m) == 0 && form.value(y_here, y_there, m) == 0
                && !agree(x_here, x_there, y_here, y_there, unknowns),
    }
}

/// The values with one cell changed.
fn with_value(here: &Vec<u64>, there: &Vec<u64>, cell: Cell, value: u64) -> (r: (
    Vec<u64>,
    Vec<u64>,
))
    requires
        cell.column < here@.len(),
        here@.len() == there@.len(),
    ensures
        r.0@ == (if cell.next {
            here@
        } else {
            here@.update(cell.column as int, value)
        }),
        r.1@ == (if cell.next {
            there@.update(cell.column as int, value)
        } else {
            there@
        }),
{
    let mut h: Vec<u64> = copy_values(here);
    let mut t: Vec<u64> = copy_values(there);
    if cell.next {
        t.set(cell.column, value);
    } else {
        h.set(cell.column, value);
    }
    (h, t)
}

/// Searches the combinations of values of the listed cells from the `i`-th
/// on, with the earlier cells as they are in `here` and `there`.
pub fn search(
    form: &AffineExpression,
    field: &Field,
    limits: &Vec<Option<u64>>,
    unknowns: &Vec<Cell>,
    i: usize,
    here: &Vec<u64>,
    there: &Vec<u64>,
) -> (r: Found)
    requires
        field.wf(),
        form.wf(limits@.len() as int, *field),
        lists_open(form@, unknowns@),
        forall|j: int|
            0 <= j < unknowns@.len() ==> limits@[(#[trigger] unknowns@[j]).column as int] is Some,
        i <= unknowns@.len(),
        here@.len() == limits@.len(),
        there@.len() == limits@.len(),
        forall|j: int|
            0 <= j < i ==> in_limit(ints(here@), ints(there@), limits@, #[trigger] unknowns@[j]),
    ensures
        found_meaning(
            r,
            form@,
            field.modulus as int,
            limits@,
            unknowns@,
            i as int,
            ints(here@),
            ints(there@),
        ),
    decreases unknowns@.len() - i,
{
    let ghost m = field.modulus as int;
    let ghost c_here = ints(here@);
    let ghost c_there = ints(there@);
    let width: usize = limits.len();
    let count: usize = unknowns.len();
    if i == count {
        let value: u64 = value_at(form, here, there, field);
        proof {
            assert forall|x_here: Seq<int>, x_there: Seq<int>| #[trigger]
                fits(
                    x_here,
                    x_there,
                    limits@,
                    unknowns@,
                    i as int,
                    c_here,
                    c_there,
                ) implies form@.value(x_here, x_there, m) == value && agree(
                x_here,
                x_there,
                c_here,
                c_there,
                unknowns@,
            ) by {
                lemma_value_agree(form@, unknowns@, x_here, x_there, c_here, c_there, m);
            }
        }
        if value == 0 {
            let a_here: Vec<u64> = copy_values(here);
            let a_there: Vec<u64> = copy_values(there);
            Found::One(a_here, a_there)
        } else {
            Found::Nothing
        }
    } else {
        let cell: Cell = unknowns[i];
        let limit: u64 = match limits[cell.column] {
            Some(l) => l,
            None => 0,
        };
        let mut result: Found = Found::Nothing;
        let mut v: u64 = 0;
        while v < limit
            invariant
                field.wf(),
                m == field.modulus,
                c_here == ints(here@),
                c_there == ints(there@),
                form.wf(limits@.len() as int, *field),
                lists_open(form@, unknowns@),
                forall|j: int|
                    0 <= j < unknowns@.len() ==> limits@[(
                    #[trigger] unknowns@[j]).column as int] is Some,
                i < unknowns@.len(),
                count == unknowns@.len(),
                cell == unknowns@[i as int],
                limits@[cell.column as int] == Some(limit),
                here@.len() == limits@.len(),
                there@.len() == limits@.len(),
                forall|j: int|
                    0 <= j < i ==> in_limit(c_here, c_there, limits@, #[trigger] unknowns@[j]),
                v <= limit,
                match result {
                    Found::Nothing => forall|x_here: Seq<int>, x_there: Seq<int>| #[trigger]
                        fits(x_here, x_there, limits@, unknowns@, i as int, c_here, c_there)
                            && cell_value(x_here, x_there, cell) < v ==> form@.value(
                            x_here,
                            x_there,
                            m,
                        ) != 0,
                    Found::One(a_here, a_there) => {
                        &&& fits(
                            ints(a_here@),
                            ints(a_there@),
                            limits@,
                            unknowns@,
                            i as int,
                            c_here,
                            c_there,
                        )
                        &&& form@.value(ints(a_here@), ints(a_there@), m) == 0
                        &&& forall|x_here: Seq<int>, x_there: Seq<int>| #[trigger]
                            fits(x_here, x_there, limits@, unknowns@, i as int, c_here, c_there)
                                && cell_value(x_here, x_there, cell) < v && form@.value(
                                x_here,
                                x_there,
                                m,
                            ) == 0 ==> agree(
                                x_here,
                                x_there,
                                ints(a_here@),
                                ints(a_there@),
                                unknowns@,
                            )
                        &&& cell_value(ints(a_here@), ints(a_there@), cell) < v
                    },
                    Found::Several => false,
                },
            decreases limit - v,
        {
            let (n_here, n_there) = with_value(here, there, cell, v);
            let ghost d_here = ints(n_here@);
            let ghost d_there = ints(n_there@);
            proof {
                // The changed values are as before on the earlier cells, and hold `v` in the cell.
                assert(cell_value(d_here, d_there, cell) == v);
                assert forall|j: int| 0 <= j < i implies cell_value(
                    d_here,
                    d_there,
                    #[trigger] unknowns@[j],
                ) == cell_value(c_here, c_there, unknowns@[j]) by {
                    assert(unknowns@[j] != unknowns@[i as int]);
                    assert(is_open(form@, unknowns@[j]));
                }
                assert forall|j: int| 0 <= j < i + 1 implies in_limit(
                    d_here,
                    d_there,
                    limits@,
                    #[trigger] unknowns@[j],
                ) by {
                    if j < i {
                        assert(in_limit(c_here, c_there, limits@, unknowns@[j]));
                    }
                }
            }
            let inner: Found = search(form, field, limits, unknowns, i + 1, &n_here, &n_there);
            proof {
                // To fit the changed values up to the next cell is to fit the values up to
                // this cell and to hold `v` in it.
                assert forall|x_here: Seq<int>, x_there: Seq<int>|
                    fits(x_here, x_there, limits@, unknowns@, i as int, c_here, c_there)
                        && cell_value(x_here, x_there, cell) == v implies #[trigger] fits(
                    x_here,
                    x_there,
                    limits@,
                    unknowns@,
                    i + 1,
                    d_here,
                    d_there,
                ) by {
                    assert forall|j: int| 0 <= j < i + 1 && j < unknowns@.len() implies cell_value(
                        x_here,
                        x_there,
                        #[trigger] unknowns@[j],
                    ) == cell_value(d_here, d_there, unknowns@[j]) by {}
                }
                assert forall|x_here: Seq<int>, x_there: Seq<int>| #[trigger]
                    fits(
                        x_here,
                        x_there,
                        limits@,
                        unknowns@,
                        i + 1,
                        d_here,
                        d_there,
                    ) implies fits(x_here, x_there, limits@, unknowns@, i as int, c_here, c_there)
                    && cell_value(x_here, x_there, cell) == v by {
                    assert(cell_value(x_here, x_there, unknowns@[i as int]) == cell_value(
                        d_here,
                        d_there,
                        unknowns@[i as int],
                    ));
                    assert forall|j: int| 0 <= j < i && j < unknowns@.len() implies cell_value(
                        x_here,
                        x_there,
                        #[trigger] unknowns@[j],
                    ) == cell_value(c_here, c_there, unknowns@[j]) by {
                        assert(cell_value(x_here, x_there, unknowns@[j]) == cell_value(
                            d_here,
                            d_there,
                            unknowns@[j],
                        ));
                    }
                }
            }
            match inner {
                Found::Nothing => {
                    proof {
                        lemma_step_nothing(
                            result,
                            form@,
                            m,
                            limits@,
                            unknowns@,
                            i as int,
                            c_here,
                            c_there,
                            d_here,
                            d_there,
                            v as int,
                        );
                    }
                },
                Found::One(b_here, b_there) => {
                    match result {
                        Found::Nothing => {
                            proof {
                                assert(fits(
                                    ints(b_here@),
                                    ints(b_there@),
                                    limits@,
                                    unknowns@,
                                    i + 1,
                                    d_here,
                                    d_there,
                                ));
                                assert forall|x_here: Seq<int>, x_there: Seq<int>| #[trigger]
                                    fits(
                                        x_here,
                                        x_there,
                                        limits@,
                                        unknowns@,
                                        i as int,
                                        c_here,
                                        c_there,
                                    ) && cell_value(x_here, x_there, cell) < v + 1 && form@.value(
                                        x_here,
                                        x_there,
                                        m,
                                    ) == 0 implies agree(
                                    x_here,
                                    x_there,
                                    ints(b_here@),
                                    ints(b_there@),
                                    unknowns@,
                                ) by {
                                    if cell_value(x_here, x_there, cell) == v {
                                        assert(fits(
                                            x_here,
                                            x_there,
                                            limits@,
                                            unknowns@,
                                            i + 1,
                                            d_here,
                                            d_there,
                                        ));
                                    }
                                }
                            }
                            result = Found::One(b_here, b_there);
                        },
                        Found::One(a_here, a_there) => {
                            proof {
                                let x_here = ints(a_here@);
                                let x_there = ints(a_there@);
                                let y_here = ints(b_here@);
                                let y_there = ints(b_there@);
                                assert(fits(
                                    y_here,
                                    y_there,
                                    limits@,
                                    unknowns@,
                                    i + 1,
                                    d_here,
                                    d_there,
                                ));
                                assert(fits(
                                    y_here,
                                    y_there,
                                    limits@,
                                    unknowns@,
                                    i as int,
                                    c_here,
                                    c_there,
                                ));
                                assert(cell_value(x_here, x_there, unknowns@[i as int])
                                    != cell_value(y_here, y_there, unknowns@[i as int]));
                                assert(!agree(x_here, x_there, y_here, y_there, unknowns@));
                            }
                            return Found::Several;
                        },
                        Found::Several => {},
                    }
                },
                Found::Several => {
                    proof {
                        let (x_here, x_there, y_here, y_there) = choose|
                            x_here: Seq<int>,
                            x_there: Seq<int>,
                            y_here: Seq<int>,
                            y_there: Seq<int>,
                        |
                            #[trigger] fits(
                                x_here,
                                x_there,
                                limits@,
                                unknowns@,
                                i + 1,
                                d_here,
                                d_there,
                            ) && #[trigger] fits(
                                y_here,
                                y_there,
                                limits@,
                                unknowns@,
                                i + 1,
                                d_here,
                                d_there,
                            ) && form@.value(x_here, x_there, m) == 0 && form@.value(
                                y_here,
                                y_there,
                                m,
                            ) == 0 && !agree(x_here, x_there, y_here, y_there, unknowns@);
                        assert(fits(
                            x_here,
                            x_there,
                            limits@,
                            unknowns@,
                            i as int,
                            c_here,
                            c_there,
                        ));
                        assert(fits(
                            y_here,
                            y_there,
                            limits@,
                            unknowns@,
                            i as int,
                            c_here,
                            c_there,
                        ));
                    }
                    return Found::Several;
                },
            }
            v += 1;
        }
        proof {
            // Every value of the cell that fits is below the limit.
            assert forall|x_here: Seq<int>, x_there: Seq<int>| #[trigger]
                fits(
                    x_here,
                    x_there,
                    limits@,
                    unknowns@,
                    i as int,
                    c_here,
                    c_there,
                ) implies cell_value(x_here, x_there, cell) < limit by {
                assert(in_limit(x_here, x_there, limits@, unknowns@[i as int]));
            }
        }
        result
    }
}

/// Where no combination with the value `v` in the cell makes the expression
/// zero, what was found among the smaller values holds for the values up to `v`.
proof fn lemma_step_nothing(
    result: Found,
    form: AffineForm,
    m: int,
    limits: Seq<Option<u64>>,
    unknowns: Seq<Cell>,
    i: int,
    c_here: Seq<int>,
    c_there: Seq<int>,
    d_here: Seq<int>,
    d_there: Seq<int>,
    v: int,
)
    requires
        0 <= i < unknowns.len(),
        forall|x_here: Seq<int>, x_there: Seq<int>|
            fits(x_here, x_there, limits, unknowns, i, c_here, c_there) && cell_value(
                x_here,
                x_there,
                unknowns[i],
            ) == v ==> #[trigger] fits(x_here, x_there, limits, unknowns, i + 1, d_here, d_there),
        forall|x_here: Seq<int>, x_there: Seq<int>| #[trigger]
            fits(x_here, x_there, limits, unknowns, i + 1, d_here, d_there) ==> form.value(
                x_here,
                x_there,
                m,
            ) != 0,
    ensures
        match result {
            Found::Nothing => (forall|x_here: Seq<int>, x_there: Seq<int>| #[trigger]
                fits(x_here, x_there, limits, unknowns, i, c_here, c_there) && cell_value(
                    x_here,
                    x_there,
                    unknowns[i],
                ) < v ==> form.value(x_here, x_there, m) != 0) ==> (forall|
                x_here: Seq<int>,
                x_there: Seq<int>,
            | #[trigger]
                fits(x_here, x_there, limits, unknowns, i, c_here, c_there) && cell_value(
                    x_here,
                    x_there,
                    unknowns[i],
                ) < v + 1 ==> form.value(x_here, x_there, m) != 0),
            Found::One(a_here, a_there) => (forall|x_here: Seq<int>, x_there: Seq<int>| #[trigger]
                fits(x_here, x_there, limits, unknowns, i, c_here, c_there) && cell_value(
                    x_here,
                    x_there,
                    unknowns[i],
                ) < v && form.value(x_here, x_there, m) == 0 ==> agree(
                    x_here,
                    x_there,
                    ints(a_here@),
                    ints(a_there@),
                    unknowns,
                )) ==> (forall|x_here: Seq<int>, x_there: Seq<int>| #[trigger]
                fits(x_here, x_there, limits, unknowns, i, c_here, c_there) && cell_value(
                    x_here,
                    x_there,
                    unknowns[i],
                ) < v + 1 && form.value(x_here, x_there, m) == 0 ==> agree(
                    x_here,
                    x_there,
                    ints(a_here@),
                    ints(a_there@),
                    unknowns,
                )),
            Found::Several => true,
        },
{
    match result {
        Found::Nothing => {
            if forall|x_here: Seq<int>, x_there: Seq<int>| #[trigger]
                fits(x_here, x_there, limits, unknowns, i, c_here, c_there) && cell_value(
                    x_here,
                    x_there,
                    unknowns[i],
                ) < v ==> form.value(x_here, x_there, m) != 0 {
                assert forall|x_here: Seq<int>, x_there: Seq<int>| #[trigger]
                    fits(x_here, x_there, limits, unknowns, i, c_here, c_there) && cell_value(
                        x_here,
                        x_there,
                        unknowns[i],
                    ) < v + 1 implies form.value(x_here, x_there, m) != 0 by {
                    if cell_value(x_here, x_there, unknowns[i]) == v {
                        assert(fits(x_here, x_there, limits, unknowns, i + 1, d_here, d_there));
                    }
                }
            }
        },
        Found::One(a_here, a_there) => {
            if forall|x_here: Seq<int>, x_there: Seq<int>| #[trigger]
                fits(x_here, x_there, limits, unknowns, i, c_here, c_there) && cell_value(
                    x_here,
                    x_there,
                    unknowns[i],
                ) < v && form.value(x_here, x_there, m) == 0 ==> agree(
                    x_here,
                    x_there,
                    ints(a_here@),
                    ints(a_there@),
                    unknowns,
                ) {
                assert forall|x_here: Seq<int>, x_there: Seq<int>| #[trigger]
                    fits(x_here, x_there, limits, unknowns, i, c_here, c_there) && cell_value(
                        x_here,
                        x_there,
                        unknowns[i],
                    ) < v + 1 && form.value(x_here, x_there, m) == 0 implies agree(
                    x_here,
                    x_there,
                    ints(a_here@),
                    ints(a_there@),
                    unknowns,
                ) by {
                    if cell_value(x_here, x_there, unknowns[i]) == v {
                        assert(fits(x_here, x_there, limits, unknowns, i + 1, d_here, d_there));
                    }
                }
            }
        },
        Found::Several => {},
    }
}

/// The cells among the first `n` of a row whose coefficient is not zero.
pub open spec fn open_in(coefficients: Seq<int>, next: bool, n: int) -> Seq<Cell>
    decreases n,
{
    if n <= 0 {
        Seq::empty()
    } else if coefficients[n - 1] != 0 {
        open_in(coefficients, next, n - 1).push(Cell { column: (n - 1) as usize, next })
    } else {
        open_in(coefficients, next, n - 1)
    }
}

/// The open cells of a form: those of the row, then those of the next row.
pub open spec fn open_list(form: AffineForm) -> Seq<Cell> {
    open_in(form.current, false, form.current.len() as int) + open_in(
        form.next,
        true,
        form.next.len() as int,
    )
}

/// The cells with a coefficient other than zero among the first `n` are
/// listed, each once and in increasing order.
proof fn lemma_open_in(coefficients: Seq<int>, next: bool, n: int)
    requires
        0 <= n <= coefficients.len(),
        coefficients.len() <= usize::MAX,
    ensures
        forall|j: int|
            0 <= j < open_in(coefficients, next, n).len() ==> {
                let cell = #[trigger] open_in(coefficients, next, n)[j];
                cell.next == next && cell.column < n && coefficients[cell.column as int] != 0
            },
        forall|c: int|
            0 <= c < n && coefficients[c] != 0 ==> exists|j: int|
                0 <= j < open_in(coefficients, next, n).len() && #[trigger] open_in(
                    coefficients,
                    next,
                    n,
                )[j] == (Cell { column: c as usize, next }),
        forall|i: int, j: int|
            0 <= i < j < open_in(coefficients, next, n).len() ==> (#[trigger] open_in(
                coefficients,
                next,
                n,
            )[i]).column < (#[trigger] open_in(coefficients, next, n)[j]).column,
    decreases n,
{
    if n > 0 {
        lemma_open_in(coefficients, next, n - 1);
        let before = open_in(coefficients, next, n - 1);
        let now = open_in(coefficients, next, n);
        assert forall|c: int| 0 <= c < n && coefficients[c] != 0 implies exists|j: int|
            0 <= j < now.len() && #[trigger] now[j] == (Cell { column: c as usize, next }) by {
            if c < n - 1 {
                let j = choose|j: int|
                    0 <= j < before.len() && #[trigger] before[j] == (Cell {
                        column: c as usize,
                        next,
                    });
                assert(now[j] == before[j]);
            } else {
                assert(now[now.len() - 1] == (Cell { column: c as usize, next }));
            }
        }
        assert forall|i: int, j: int| 0 <= i < j < now.len() implies (#[trigger] now[i]).column < (
        #[trigger] now[j]).column by {
            if j < before.len() {
                assert(now[i] == before[i] && now[j] == before[j]);
            } else {
                assert(now[i] == before[i]);
            }
        }
        assert forall|j: int| 0 <= j < now.len() implies {
            let cell = #[trigger] now[j];
            cell.next == next && cell.column < n && coefficients[cell.column as int] != 0
        } by {
            if j < before.len() {
                assert(now[j] == before[j]);
            }
        }
    }
}

/// The list of the open cells lists them, each once.
pub proof fn lemma_open_list(form: AffineForm)
    requires
        form.current.len() == form.next.len(),
        form.current.len() <= usize::MAX,
    ensures
        lists_open(form, open_list(form)),
{
    let width = form.current.len() as int;
    let a = open_in(form.current, false, width);
    let b = open_in(form.next, true, width);
    let u = open_list(form);
    lemma_open_in(form.current, false, width);
    lemma_open_in(form.next, true, width);
    assert forall|j: int| 0 <= j < u.len() implies is_open(form, #[trigger] u[j]) by {
        if j < a.len() {
            assert(u[j] == a[j]);
        } else {
            assert(u[j] == b[j - a.len()]);
        }
    }
    assert forall|cell: Cell| #[trigger] is_open(form, cell) implies exists|j: int|
        0 <= j < u.len() && #[trigger] u[j] == cell by {
        let c = cell.column as int;
        if cell.next {
            let j = choose|j: int|
                0 <= j < b.len() && #[trigger] b[j] == (Cell { column: c as usize, next: true });
            assert(u[a.len() + j] == b[j]);
        } else {
            let j = choose|j: int|
                0 <= j < a.len() && #[trigger] a[j] == (Cell { column: c as usize, next: false });
            assert(u[j] == a[j]);
        }
    }
    assert forall|i: int, j: int| 0 <= i < j < u.len() implies #[trigger] u[i] != #[trigger] u[j] by {
        if j < a.len() {
            assert(u[i] == a[i] && u[j] == a[j]);
        } else if i < a.len() {
            assert(u[i] == a[i] && u[j] == b[j - a.len()]);
        } else {
            assert(u[i] == b[i - a.len()] && u[j] == b[j - a.len()]);
        }
    }
}

/// Adds the cells of one row whose coefficient is not zero to the list.
fn push_open(coefficients: &Vec<u64>, next: bool, cells: &mut Vec<Cell>)
    ensures
        final(cells)@ == old(cells)@ + open_in(
            ints(coefficients@),
            next,
            coefficients@.len() as int,
        ),
{
    let mut c: usize = 0;
    while c < coefficients.len()
        invariant
            c <= coefficients@.len(),
            cells@ == old(cells)@ + open_in(ints(coefficients@), next, c as int),
        decreases coefficients.len() - c,
    {
        if coefficients[c] != 0 {
            cells.push(Cell { column: c, next });
        }
        proof {
            assert(ints(coefficients@)[c as int] == coefficients@[c as int]);
            assert(cells@ =~= old(cells)@ + open_in(ints(coefficients@), next, c as int + 1));
        }
        c += 1;
    }
}

/// The number of combinations of values of the first `n` listed cells: the
/// product of their limits.
pub open spec fn combinations(limits: Seq<Option<u64>>, cells: Seq<Cell>, n: int) -> int
    decreases n,
{
    if n <= 0 {
        1
    } else {
        combinations(limits, cells, n - 1) * match limits[cells[n - 1].column as int] {
            Some(l) => l as int,
            None => 0,
        }
    }
}

/// Whether the open cells of the form can be searched: each has a limit,
/// which is no more than the modulus, and the combinations are not too many.
pub open spec fn searchable(form: AffineForm, limits: Seq<Option<u64>>, m: int) -> bool {
    let cells = open_list(form);
    &&& forall|j: int|
        0 <= j < cells.len() ==> match limits[(#[trigger] cells[j]).column as int] {
            Some(l) => 1 <= l <= m,
            None => false,
        }
    &&& combinations(limits, cells, cells.len() as int) <= MAX_COMBINATIONS
}

/// Whether the values keep every open cell of the form within its limit.
pub open spec fn bounded_values(
    here: Seq<int>,
    there: Seq<int>,
    form: AffineForm,
    limits: Seq<Option<u64>>,
) -> bool {
    fits(here, there, limits, open_list(form), 0, here, there)
}

/// Whether the values hold what the constraints assign.
pub open spec fn holds_assignments(
    here: Seq<int>,
    there: Seq<int>,
    constraints: Seq<(Cell, Constraint)>,
) -> bool {
    forall|j: int|
        0 <= j < constraints.len() ==> match (#[trigger] constraints[j]).1 {
            Constraint::Assignment(v) => cell_value(here, there, constraints[j].0) == v,
        }
}

/// What bounds tell of an expression that must be zero.
pub enum BoundedSolution {
    /// No values within the bounds make the expression zero.
    Contradiction,
    /// The expression is zero exactly for these values of its open cells.
    Assignments(Vec<(Cell, Constraint)>),
    /// The cells are not all bounded, or too many combinations would have
    /// to be tried, or several combinations make the expression zero.
    Undetermined,
}

/// What the outcome says of the values within the bounds.
pub open spec fn solution_meaning(
    solution: BoundedSolution,
    form: AffineForm,
    limits: Seq<Option<u64>>,
    m: int,
) -> bool {
    match solution {
        BoundedSolution::Contradiction => searchable(form, limits, m) && forall|
            here: Seq<int>,
            there: Seq<int>,
        | #[trigger]
            bounded_values(here, there, form, limits) ==> form.value(here, there, m) != 0,
        BoundedSolution::Assignments(constraints) => {
            &&& searchable(form, limits, m)
            &&& constraints@.len() == open_list(form).len()
            &&& forall|j: int|
                0 <= j < constraints@.len() ==> (#[trigger] constraints@[j]).0 == open_list(
                    form,
                )[j] && match constraints@[j].1 {
                    Constraint::Assignment(v) => v < m,
                }
            &&& forall|here: Seq<int>, there: Seq<int>| #[trigger]
                bounded_values(here, there, form, limits) ==> (form.value(here, there, m) == 0
                    <==> holds_assignments(here, there, constraints@))
            &&& exists|here: Seq<int>, there: Seq<int>| #[trigger]
                bounded_values(here, there, form, limits) && form.value(here, there, m) == 0
            &&& forall|here: Seq<int>, there: Seq<int>|
                here.len() == limits.len() && there.len() == limits.len()
                    && #[trigger] holds_assignments(here, there, constraints@) ==> bounded_values(
                    here,
                    there,
                    form,
                    limits,
                )
        },
        BoundedSolution::Undetermined => !searchable(form, limits, m) || exists|
            x_here: Seq<int>,
            x_there: Seq<int>,
            y_here: Seq<int>,
            y_there: Seq<int>,
        |
            #[trigger] bounded_values(x_here, x_there, form, limits) && #[trigger] bounded_values(
                y_here,
                y_there,
                form,
                limits,
            ) && form.value(x_here, x_there, m) == 0 && form.value(y_here, y_there, m) == 0
                && !agree(x_here, x_there, y_here, y_there, open_list(form)),
    }
}

/// Whether the cells can be searched.
fn is_searchable(
    form: &AffineExpression,
    field: &Field,
    limits: &Vec<Option<u64>>,
    cells: &Vec<Cell>,
) -> (r: bool)
    requires
        cells@ == open_list(form@),
        lists_open(form@, cells@),
        form@.current.len() == limits@.len(),
    ensures
        r == searchable(form@, limits@, field.modulus as int),
{
    let mut product: u64 = 1;
    let mut j: usize = 0;
    while j < cells.len()
        invariant
            cells@ == open_list(form@),
            lists_open(form@, cells@),
            form@.current.len() == limits@.len(),
            j <= cells@.len(),
            product == combinations(limits@, cells@, j as int),
            1 <= product <= MAX_COMBINATIONS,
            forall|k: int|
                0 <= k < j ==> match limits@[(#[trigger] cells@[k]).column as int] {
                    Some(l) => 1 <= l <= field.modulus,
                    None => false,
                },
        decreases cells.len() - j,
    {
        assert(is_open(form@, cells@[j as int]));
        let limit: u64 = match limits[cells[j].column] {
            Some(l) => l,
            None => {
                return false;
            },
        };
        if limit == 0 || limit > field.modulus {
            return false;
        }
        if limit > MAX_COMBINATIONS / product {
            proof {
                let total = cells@.len() as int;
                assert(product as int * limit as int > MAX_COMBINATIONS) by (nonlinear_arith)
                    requires
                        limit as int > MAX_COMBINATIONS as int / product as int,
                        1 <= product <= MAX_COMBINATIONS,
                ;
                lemma_combinations_grow(limits@, cells@, j as int + 1, total);
            }
            return false;
        }
        proof {
            assert(product as int * limit as int <= MAX_COMBINATIONS) by (nonlinear_arith)
                requires
                    limit as int <= MAX_COMBINATIONS as int / product as int,
                    1 <= product <= MAX_COMBINATIONS,
            ;
            assert(product as int * limit as int >= 1) by (nonlinear_arith)
                requires
                    product >= 1,
                    limit >= 1,
            ;
        }
        product = product * limit;
        j += 1;
    }
    true
}

/// With limits of at least one, the combinations of more cells are no fewer.
proof fn lemma_combinations_grow(limits: Seq<Option<u64>>, cells: Seq<Cell>, n: int, k: int)
    requires
        0 <= n <= k <= cells.len(),
        combinations(limits, cells, n) > MAX_COMBINATIONS,
    ensures
        combinations(limits, cells, k) > MAX_COMBINATIONS || exists|j: int|
            0 <= j < k && match limits[(#[trigger] cells[j]).column as int] {
                Some(l) => l < 1,
                None => true,
            },
    decreases k - n,
{
    if n < k {
        let l = match limits[cells[n].column as int] {
            Some(l) => l as int,
            None => 0,
        };
        if l >= 1 {
            assert(combinations(limits, cells, n) * l > MAX_COMBINATIONS) by (nonlinear_arith)
                requires
                    combinations(limits, cells, n) > MAX_COMBINATIONS,
                    l >= 1,
            ;
            lemma_combinations_grow(limits, cells, n + 1, k);
        } else {
            assert(match limits[cells[n].column as int] {
                Some(l) => l < 1,
                None => true,
            });
        }
    }
}

/// Solves `form = 0` for the open cells, all of which are bounded.
pub fn solve_within(form: &AffineExpression, field: &Field, limits: &Vec<Option<u64>>) -> (r:
    BoundedSolution)
    requires
        field.wf(),
        form.wf(limits@.len() as int, *field),
    ensures
        solution_meaning(r, form@, limits@, field.modulus as int),
{
    let ghost m = field.modulus as int;
    let width: usize = limits.len();
    let mut cells: Vec<Cell> = Vec::new();
    push_open(&form.current, false, &mut cells);
    push_open(&form.next, true, &mut cells);
    proof {
        assert(cells@ =~= open_list(form@));
        lemma_open_list(form@);
    }
    if !is_searchable(form, field, limits, &cells) {
        return BoundedSolution::Undetermined;
    }
    let zeros: Vec<u64> = zero_values(width);
    let found: Found = search(form, field, limits, &cells, 0, &zeros, &zeros);
    let ghost z = ints(zeros@);
    proof {
        // Without a cell to agree on, what fits is what is within the bounds.
        assert forall|here: Seq<int>, there: Seq<int>|
            bounded_values(here, there, form@, limits@) == #[trigger] fits(
                here,
                there,
                limits@,
                cells@,
                0,
                z,
                z,
            ) by {}
    }
    match found {
        Found::Nothing => {
            proof {
                assert forall|here: Seq<int>, there: Seq<int>| #[trigger]
                    bounded_values(here, there, form@, limits@) implies form@.value(
                    here,
                    there,
                    m,
                ) != 0 by {
                    assert(fits(here, there, limits@, cells@, 0, z, z));
                }
            }
            BoundedSolution::Contradiction
        },
        Found::Several => {
            proof {
                let (x_here, x_there, y_here, y_there) = choose|
                    x_here: Seq<int>,
                    x_there: Seq<int>,
                    y_here: Seq<int>,
                    y_there: Seq<int>,
                |
                    #[trigger] fits(x_here, x_there, limits@, cells@, 0, z, z) && #[trigger] fits(
                        y_here,
                        y_there,
                        limits@,
                        cells@,
                        0,
                        z,
                        z,
                    ) && form@.value(x_here, x_there, m) == 0 && form@.value(y_here, y_there, m)
                        == 0 && !agree(x_here, x_there, y_here, y_there, cells@);
                assert(bounded_values(x_here, x_there, form@, limits@));
                assert(bounded_values(y_here, y_there, form@, limits@));
            }
            BoundedSolution::Undetermined
        },
        Found::One(a_here, a_there) => {
            let ghost s_here = ints(a_here@);
            let ghost s_there = ints(a_there@);
            let mut constraints: Vec<(Cell, Constraint)> = Vec::new();
            let mut j: usize = 0;
            while j < cells.len()
                invariant
                    cells@ == open_list(form@),
                    lists_open(form@, cells@),
                    form@.current.len() == limits@.len(),
                    searchable(form@, limits@, m),
                    s_here == ints(a_here@),
                    s_there == ints(a_there@),
                    a_here@.len() == limits@.len(),
                    a_there@.len() == limits@.len(),
                    fits(s_here, s_there, limits@, cells@, 0, z, z),
                    j <= cells@.len(),
                    constraints@.len() == j,
                    forall|k: int|
                        0 <= k < j ==> (#[trigger] constraints@[k]).0 == cells@[k]
                            && constraints@[k].1 == Constraint::Assignment(
                            cell_value(s_here, s_there, cells@[k]) as u64,
                        ) && cell_value(s_here, s_there, cells@[k]) < m,
                decreases cells.len() - j,
            {
                let cell: Cell = cells[j];
                proof {
                    assert(is_open(form@, cells@[j as int]));
                    assert(in_limit(s_here, s_there, limits@, cells@[j as int]));
                    assert(s_here[cell.column as int] == a_here@[cell.column as int]);
                    assert(s_there[cell.column as int] == a_there@[cell.column as int]);
                }
                let value: u64 = if cell.next {
                    a_there[cell.column]
                } else {
                    a_here[cell.column]
                };
                constraints.push((cell, Constraint::Assignment(value)));
                j += 1;
            }
            proof {
                assert(bounded_values(s_here, s_there, form@, limits@) && form@.value(
                    s_here,
                    s_there,
                    m,
                ) == 0);
                assert forall|here: Seq<int>, there: Seq<int>|
                    here.len() == limits@.len() && there.len() == limits@.len()
                        && #[trigger] holds_assignments(
                        here,
                        there,
                        constraints@,
                    ) implies bounded_values(here, there, form@, limits@) by {
                    assert forall|k: int| 0 <= k < cells@.len() implies in_limit(
                        here,
                        there,
                        limits@,
                        #[trigger] cells@[k],
                    ) by {
                        assert(constraints@[k].0 == cells@[k]);
                        assert(in_limit(s_here, s_there, limits@, cells@[k]));
                    }
                }
                assert forall|here: Seq<int>, there: Seq<int>| #[trigger]
                    bounded_values(here, there, form@, limits@) implies (form@.value(
                    here,
                    there,
                    m,
                ) == 0 <==> holds_assignments(here, there, constraints@)) by {
                    assert(fits(here, there, limits@, cells@, 0, z, z));
                    if form@.value(here, there, m) == 0 {
                        assert(agree(here, there, s_here, s_there, cells@));
                        assert forall|k: int| 0 <= k < constraints@.len() implies match (
                        #[trigger] constraints@[k]).1 {
                            Constraint::Assignment(v) => cell_value(here, there, constraints@[k].0)
                                == v,
                        } by {
                            assert(cell_value(here, there, cells@[k]) == cell_value(
                                s_here,
                                s_there,
                                cells@[k],
                            ));
                        }
                    }
                    if holds_assignments(here, there, constraints@) {
                        assert forall|k: int| 0 <= k < cells@.len() implies cell_value(
                            here,
                            there,
                            #[trigger] cells@[k],
                        ) == cell_value(s_here, s_there, cells@[k]) by {
                            assert(constraints@[k].0 == cells@[k]);
                        }
                        lemma_value_agree(form@, cells@, here, there, s_here, s_there, m);
                    }
                }
            }
            BoundedSolution::Assignments(constraints)
        },
    }
}

/// Whether no values within the bounds make the form zero.
pub open spec fn no_solution(form: AffineForm, limits: Seq<Option<u64>>, m: int) -> bool {
    forall|here: Seq<int>, there: Seq<int>| #[trigger]
        bounded_values(here, there, form, limits) ==> form.value(here, there, m) != 0
}

/// Whether values within the bounds that differ in an open cell make the form zero.
pub open spec fn several_solutions(form: AffineForm, limits: Seq<Option<u64>>, m: int) -> bool {
    exists|x_here: Seq<int>, x_there: Seq<int>, y_here: Seq<int>, y_there: Seq<int>|
        #[trigger] bounded_values(x_here, x_there, form, limits) && #[trigger] bounded_values(
            y_here,
            y_there,
            form,
            limits,
        ) && form.value(x_here, x_there, m) == 0 && form.value(y_here, y_there, m) == 0 && !agree(
            x_here,
            x_there,
            y_here,
            y_there,
            open_list(form),
        )
}

/// Whether the bounds tell the values of the open cells: the cells can be
/// searched, and exactly one combination of values makes the form zero.
pub open spec fn bounds_solve(form: AffineForm, limits: Seq<Option<u64>>, m: int) -> bool {
    searchable(form, limits, m) && !no_solution(form, limits, m) && !several_solutions(
        form,
        limits,
        m,
    )
}

/// The outcome is the one that the bounds call for.
pub proof fn lemma_solution_kind(
    solution: BoundedSolution,
    form: AffineForm,
    limits: Seq<Option<u64>>,
    m: int,
)
    requires
        solution_meaning(solution, form, limits, m),
    ensures
        solution is Contradiction <==> searchable(form, limits, m) && no_solution(form, limits, m),
        solution is Assignments <==> bounds_solve(form, limits, m),
{
    match solution {
        BoundedSolution::Contradiction => {
            if several_solutions(form, limits, m) {
                let (x_here, x_there, y_here, y_there) = choose|
                    x_here: Seq<int>,
                    x_there: Seq<int>,
                    y_here: Seq<int>,
                    y_there: Seq<int>,
                |
                    #[trigger] bounded_values(x_here, x_there, form, limits)
                        && #[trigger] bounded_values(y_here, y_there, form, limits) && form.value(
                        x_here,
                        x_there,
                        m,
                    ) == 0 && form.value(y_here, y_there, m) == 0 && !agree(
                        x_here,
                        x_there,
                        y_here,
                        y_there,
                        open_list(form),
                    );
                assert(false);
            }
        },
        BoundedSolution::Assignments(constraints) => {
            let (s_here, s_there) = choose|here: Seq<int>, there: Seq<int>| #[trigger]
                bounded_values(here, there, form, limits) && form.value(here, there, m) == 0;
            assert(!no_solution(form, limits, m));
            if several_solutions(form, limits, m) {
                let (x_here, x_there, y_here, y_there) = choose|
                    x_here: Seq<int>,
                    x_there: Seq<int>,
                    y_here: Seq<int>,
                    y_there: Seq<int>,
                |
                    #[trigger] bounded_values(x_here, x_there, form, limits)
                        && #[trigger] bounded_values(y_here, y_there, form, limits) && form.value(
                        x_here,
                        x_there,
                        m,
                    ) == 0 && form.value(y_here, y_there, m) == 0 && !agree(
                        x_here,
                        x_there,
                        y_here,
                        y_there,
                        open_list(form),
                    );
                assert(holds_assignments(x_here, x_there, constraints@));
                assert(holds_assignments(y_here, y_there, constraints@));
                assert forall|j: int| 0 <= j < open_list(form).len() implies cell_value(
                    x_here,
                    x_there,
                    #[trigger] open_list(form)[j],
                ) == cell_value(y_here, y_there, open_list(form)[j]) by {
                    assert(constraints@[j].0 == open_list(form)[j]);
                }
                assert(false);
            }
        },
        BoundedSolution::Undetermined => {
            if searchable(form, limits, m) {
                assert(several_solutions(form, limits, m));
                let (x_here, x_there, y_here, y_there) = choose|
                    x_here: Seq<int>,
                    x_there: Seq<int>,
                    y_here: Seq<int>,
                    y_there: Seq<int>,
                |
                    #[trigger] bounded_values(x_here, x_there, form, limits)
                        && #[trigger] bounded_values(y_here, y_there, form, limits) && form.value(
                        x_here,
                        x_there,
                        m,
                    ) == 0 && form.value(y_here, y_there, m) == 0 && !agree(
                        x_here,
                        x_there,
                        y_here,
                        y_there,
                        open_list(form),
                    );
                assert(!no_solution(form, limits, m));
            }
        },
    }
}

/// So many zeros.
fn zero_values(len: usize) -> (r: Vec<u64>)
    ensures
        r@.len() == len,
        forall|j: int| 0 <= j < len ==> #[trigger] r@[j] == 0,
{
    let mut r: Vec<u64> = Vec::new();
    let mut k: usize = 0;
    while k < len
        invariant
            k <= len,
            r@.len() == k,
            forall|j: int| 0 <= j < k ==> #[trigger] r@[j] == 0,
        decreases len - k,
    {
        r.push(0);
        k += 1;
    }
    r
}

} // verus!
