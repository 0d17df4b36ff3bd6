//! Affine expressions: an identity's side on one row, as a linear combination
//! of the open cells of that row and of the row after it.
//!
//! Known cells are folded into the constant term, so every term of an affine
//! expression stands for a cell whose value is still to be found.

use vstd::prelude::*;
use vstd::arithmetic::div_mod::*;
use crate::field::{congruent, lemma_congruent_add, lemma_congruent_scale, Field};

verus! {

/// The mathematical affine form: `offset + sum of current[c] * (column c on the
/// row) + sum of next[c] * (column c on the next row)`, all in the field.
pub struct AffineForm {
    pub current: Seq<int>,
    pub next: Seq<int>,
    pub offset: int,
}

/// The numbers of a sequence as integers.
pub open spec fn ints(v: Seq<u64>) -> Seq<int> {
    Seq::new(v.len(), |k: int| v[k] as int)
}

pub open spec fn seq_plus(a: Seq<int>, b: Seq<int>, m: int) -> Seq<int> {
    Seq::new(a.len(), |k: int| (a[k] + b[k]) % m)
}

pub open spec fn seq_minus(a: Seq<int>, b: Seq<int>, m: int) -> Seq<int> {
    Seq::new(a.len(), |k: int| (a[k] - b[k]) % m)
}

pub open spec fn seq_scaled(a: Seq<int>, factor: int, m: int) -> Seq<int> {
    Seq::new(a.len(), |k: int| (factor * a[k]) % m)
}

pub open spec fn seq_zero(len: nat) -> Seq<int> {
    Seq::new(len, |k: int| 0int)
}

pub open spec fn seq_unit(len: nat, index: int) -> Seq<int> {
    Seq::new(
        len,
        |k: int|
            if k == index {
                1int
            } else {
                0int
            },
    )
}

impl AffineForm {
    /// The coefficient of a column on the current or on the next row.
    pub open spec fn coefficient(self, column: int, next: bool) -> int {
        if next {
            self.next[column]
        } else {
            self.current[column]
        }
    }

    /// The form has a coefficient in the field for every column on either row.
    pub open spec fn wf(self, width: int, m: int) -> bool {
        &&& self.current.len() == width
        &&& self.next.len() == width
        &&& 0 <= self.offset < m
        &&& forall|k: int| 0 <= k < width ==> 0 <= #[trigger] self.current[k] < m
        &&& forall|k: int| 0 <= k < width ==> 0 <= #[trigger] self.next[k] < m
    }

    pub open spec fn constant(width: nat, value: int) -> AffineForm {
        AffineForm { current: seq_zero(width), next: seq_zero(width), offset: value }
    }

    /// The form that is one open cell.
    pub open spec fn unit(width: nat, column: int, next: bool) -> AffineForm {
        if next {
            AffineForm { current: seq_zero(width), next: seq_unit(width, column), offset: 0 }
        } else {
            AffineForm { current: seq_unit(width, column), next: seq_zero(width), offset: 0 }
        }
    }

    pub open spec fn plus(self, other: AffineForm, m: int) -> AffineForm {
        AffineForm {
            current: seq_plus(self.current, other.current, m),
            next: seq_plus(self.next, other.next, m),
            offset: (self.offset + other.offset) % m,
        }
    }

    pub open spec fn minus(self, other: AffineForm, m: int) -> AffineForm {
        AffineForm {
            current: seq_minus(self.current, other.current, m),
            next: seq_minus(self.next, other.next, m),
            offset: (self.offset - other.offset) % m,
        }
    }

    pub open spec fn scaled(self, factor: int, m: int) -> AffineForm {
        AffineForm {
            current: seq_scaled(self.current, factor, m),
            next: seq_scaled(self.next, factor, m),
            offset: (factor * self.offset) % m,
        }
    }

    /// No cell has a coefficient other than zero.
    pub open spec fn is_constant(self) -> bool {
        &&& forall|k: int| 0 <= k < self.current.len() ==> #[trigger] self.current[k] == 0
        &&& forall|k: int| 0 <= k < self.next.len() ==> #[trigger] self.next[k] == 0
    }

    /// The given cell is the only one whose coefficient is not zero.
    pub open spec fn only_unknown(self, column: int, next: bool) -> bool {
        &&& 0 <= column < self.current.len()
        &&& self.coefficient(column, next) != 0
        &&& forall|k: int|
            0 <= k < self.current.len() && (next || k != column) ==> #[trigger] self.current[k] == 0
        &&& forall|k: int|
            0 <= k < self.next.len() && (!next || k != column) ==> #[trigger] self.next[k] == 0
    }
}

/// The sum of the first `n` products of a coefficient and the value of its cell.
pub open spec fn dot(a: Seq<int>, x: Seq<int>, n: int) -> int
    decreases n,
{
    if n <= 0 {
        0
    } else {
        dot(a, x, n - 1) + a[n - 1] * x[n - 1]
    }
}

/// Where all coefficients but one are zero, the sum is the one product.
pub proof fn lemma_dot_only(a: Seq<int>, x: Seq<int>, n: int, k: int)
    requires
        0 <= n <= a.len(),
        forall|j: int| 0 <= j < a.len() && j != k ==> #[trigger] a[j] == 0,
    ensures
        dot(a, x, n) == if 0 <= k < n {
            a[k] * x[k]
        } else {
            0
        },
    decreases n,
{
    if n > 0 {
        lemma_dot_only(a, x, n - 1, k);
        if n - 1 != k {
            assert(a[n - 1] * x[n - 1] == 0) by (nonlinear_arith)
                requires
                    a[n - 1] == 0,
            ;
        }
    }
}

pub proof fn lemma_dot_plus(a: Seq<int>, b: Seq<int>, x: Seq<int>, m: int, n: int)
    requires
        m > 0,
        a.len() == b.len(),
        0 <= n <= a.len(),
    ensures
        congruent(dot(seq_plus(a, b, m), x, n), dot(a, x, n) + dot(b, x, n), m),
    decreases n,
{
    if n > 0 {
        lemma_dot_plus(a, b, x, m, n - 1);
        let p = seq_plus(a, b, m);
        let y = x[n - 1];
        lemma_mod_twice(a[n - 1] + b[n - 1], m);
        assert(congruent(p[n - 1], a[n - 1] + b[n - 1], m));
        lemma_congruent_scale(p[n - 1], a[n - 1] + b[n - 1], y, m);
        assert((a[n - 1] + b[n - 1]) * y == a[n - 1] * y + b[n - 1] * y) by (nonlinear_arith);
        lemma_congruent_add(
            dot(p, x, n - 1),
            dot(a, x, n - 1) + dot(b, x, n - 1),
            p[n - 1] * y,
            a[n - 1] * y + b[n - 1] * y,
            m,
        );
    }
}

pub proof fn lemma_dot_minus(a: Seq<int>, b: Seq<int>, x: Seq<int>, m: int, n: int)
    requires
        m > 0,
        a.len() == b.len(),
        0 <= n <= a.len(),
    ensures
        congruent(dot(seq_minus(a, b, m), x, n), dot(a, x, n) - dot(b, x, n), m),
    decreases n,
{
    if n > 0 {
        lemma_dot_minus(a, b, x, m, n - 1);
        let p = seq_minus(a, b, m);
        let y = x[n - 1];
        lemma_mod_twice(a[n - 1] - b[n - 1], m);
        assert(congruent(p[n - 1], a[n - 1] - b[n - 1], m));
        lemma_congruent_scale(p[n - 1], a[n - 1] - b[n - 1], y, m);
        assert((a[n - 1] - b[n - 1]) * y == a[n - 1] * y - b[n - 1] * y) by (nonlinear_arith);
        lemma_congruent_add(
            dot(p, x, n - 1),
            dot(a, x, n - 1) - dot(b, x, n - 1),
            p[n - 1] * y,
            a[n - 1] * y - b[n - 1] * y,
            m,
        );
    }
}

pub proof fn lemma_dot_scaled(a: Seq<int>, factor: int, x: Seq<int>, m: int, n: int)
    requires
        m > 0,
        0 <= n <= a.len(),
    ensures
        congruent(dot(seq_scaled(a, factor, m), x, n), factor * dot(a, x, n), m),
    decreases n,
{
    if n > 0 {
        lemma_dot_scaled(a, factor, x, m, n - 1);
        let p = seq_scaled(a, factor, m);
        let y = x[n - 1];
        lemma_mod_twice(factor * a[n - 1], m);
        assert(congruent(p[n - 1], factor * a[n - 1], m));
        lemma_congruent_scale(p[n - 1], factor * a[n - 1], y, m);
        assert((factor * a[n - 1]) * y == factor * (a[n - 1] * y)) by (nonlinear_arith);
        lemma_congruent_add(
            dot(p, x, n - 1),
            factor * dot(a, x, n - 1),
            p[n - 1] * y,
            factor * (a[n - 1] * y),
            m,
        );
        assert(factor * dot(a, x, n - 1) + factor * (a[n - 1] * y) == factor * (dot(a, x, n - 1)
            + a[n - 1] * y)) by (nonlinear_arith);
    }
}

impl AffineForm {
    /// The value of the form, where the cells of the row have the values
    /// `here` and the cells of the next row the values `there`.
    pub open spec fn value(self, here: Seq<int>, there: Seq<int>, m: int) -> int {
        (self.offset + dot(self.current, here, self.current.len() as int) + dot(
            self.next,
            there,
            self.next.len() as int,
        )) % m
    }

    /// A constant has its value whatever the cells hold.
    pub proof fn lemma_value_constant(self, here: Seq<int>, there: Seq<int>, m: int)
        requires
            m > 0,
            self.is_constant(),
        ensures
            self.value(here, there, m) == self.offset % m,
    {
        lemma_dot_only(self.current, here, self.current.len() as int, -1);
        lemma_dot_only(self.next, there, self.next.len() as int, -1);
    }

    /// A single cell has the value of the cell.
    pub proof fn lemma_value_unit(
        width: nat,
        column: int,
        next: bool,
        here: Seq<int>,
        there: Seq<int>,
        m: int,
    )
        requires
            m > 0,
            0 <= column < width,
        ensures
            Self::unit(width, column, next).value(here, there, m) == (if next {
                there[column]
            } else {
                here[column]
            }) % m,
    {
        let u = Self::unit(width, column, next);
        if next {
            lemma_dot_only(u.current, here, width as int, -1);
            lemma_dot_only(u.next, there, width as int, column);
            assert(1 * there[column] == there[column]);
        } else {
            lemma_dot_only(u.current, here, width as int, column);
            lemma_dot_only(u.next, there, width as int, -1);
            assert(1 * here[column] == here[column]);
        }
    }

    /// The value of a sum is the sum of the values.
    pub proof fn lemma_value_plus(self, other: AffineForm, here: Seq<int>, there: Seq<int>, m: int)
        requires
            m > 0,
            self.current.len() == other.current.len(),
            self.next.len() == other.next.len(),
        ensures
            self.plus(other, m).value(here, there, m) == (self.value(here, there, m) + other.value(
                here,
                there,
                m,
            )) % m,
    {
        let p = self.plus(other, m);
        let n = self.current.len() as int;
        let k = self.next.len() as int;
        lemma_dot_plus(self.current, other.current, here, m, n);
        lemma_dot_plus(self.next, other.next, there, m, k);
        lemma_mod_twice(self.offset + other.offset, m);
        let a = self.offset + dot(self.current, here, n) + dot(self.next, there, k);
        let b = other.offset + dot(other.current, here, n) + dot(other.next, there, k);
        lemma_congruent_add(
            p.offset,
            self.offset + other.offset,
            dot(p.current, here, n),
            dot(self.current, here, n) + dot(other.current, here, n),
            m,
        );
        lemma_congruent_add(
            p.offset + dot(p.current, here, n),
            self.offset + other.offset + dot(self.current, here, n) + dot(other.current, here, n),
            dot(p.next, there, k),
            dot(self.next, there, k) + dot(other.next, there, k),
            m,
        );
        assert(congruent(p.offset + dot(p.current, here, n) + dot(p.next, there, k), a + b, m));
        lemma_add_mod_noop(a, b, m);
    }

    /// The value of a difference is the difference of the values.
    pub proof fn lemma_value_minus(self, other: AffineForm, here: Seq<int>, there: Seq<int>, m: int)
        requires
            m > 0,
            self.current.len() == other.current.len(),
            self.next.len() == other.next.len(),
        ensures
            self.minus(other, m).value(here, there, m) == (self.value(here, there, m)
                - other.value(here, there, m)) % m,
    {
        let p = self.minus(other, m);
        let n = self.current.len() as int;
        let k = self.next.len() as int;
        lemma_dot_minus(self.current, other.current, here, m, n);
        lemma_dot_minus(self.next, other.next, there, m, k);
        lemma_mod_twice(self.offset - other.offset, m);
        let a = self.offset + dot(self.current, here, n) + dot(self.next, there, k);
        let b = other.offset + dot(other.current, here, n) + dot(other.next, there, k);
        lemma_congruent_add(
            p.offset,
            self.offset - other.offset,
            dot(p.current, here, n),
            dot(self.current, here, n) - dot(other.current, here, n),
            m,
        );
        lemma_congruent_add(
            p.offset + dot(p.current, here, n),
            self.offset - other.offset + dot(self.current, here, n) - dot(other.current, here, n),
            dot(p.next, there, k),
            dot(self.next, there, k) - dot(other.next, there, k),
            m,
        );
        assert(congruent(p.offset + dot(p.current, here, n) + dot(p.next, there, k), a - b, m));
        lemma_sub_mod_noop(a, b, m);
    }

    /// The value of a multiple is the multiple of the value.
    pub proof fn lemma_value_scaled(self, factor: int, here: Seq<int>, there: Seq<int>, m: int)
        requires
            m > 0,
        ensures
            self.scaled(factor, m).value(here, there, m) == (factor * self.value(here, there, m))
                % m,
    {
        let p = self.scaled(factor, m);
        let n = self.current.len() as int;
        let k = self.next.len() as int;
        lemma_dot_scaled(self.current, factor, here, m, n);
        lemma_dot_scaled(self.next, factor, there, m, k);
        lemma_mod_twice(factor * self.offset, m);
        let a = self.offset + dot(self.current, here, n) + dot(self.next, there, k);
        lemma_congruent_add(
            p.offset,
            factor * self.offset,
            dot(p.current, here, n),
            factor * dot(self.current, here, n),
            m,
        );
        lemma_congruent_add(
            p.offset + dot(p.current, here, n),
            factor * self.offset + factor * dot(self.current, here, n),
            dot(p.next, there, k),
            factor * dot(self.next, there, k),
            m,
        );
        assert(factor * self.offset + factor * dot(self.current, here, n) + factor * dot(
            self.next,
            there,
            k,
        ) == factor * a) by (nonlinear_arith)
            requires
                a == self.offset + dot(self.current, here, n) + dot(self.next, there, k),
        ;
        assert(congruent(p.offset + dot(p.current, here, n) + dot(p.next, there, k), factor * a, m));
        lemma_mul_mod_noop_right(factor, a, m);
    }

    /// With one open cell only, the value is the constant term plus the
    /// coefficient times the value of the cell.
    pub proof fn lemma_value_only(
        self,
        column: int,
        next: bool,
        here: Seq<int>,
        there: Seq<int>,
        m: int,
    )
        requires
            m > 0,
            self.current.len() == self.next.len(),
            self.only_unknown(column, next),
        ensures
            self.value(here, there, m) == (self.coefficient(column, next) * (if next {
                there[column]
            } else {
                here[column]
            }) + self.offset) % m,
    {
        if next {
            lemma_dot_only(self.current, here, self.current.len() as int, -1);
            lemma_dot_only(self.next, there, self.next.len() as int, column);
        } else {
            lemma_dot_only(self.current, here, self.current.len() as int, column);
            lemma_dot_only(self.next, there, self.next.len() as int, -1);
        }
    }
}

/// The forms that the operations of the algebra make are well-formed.
pub proof fn lemma_forms_wf(a: AffineForm, b: AffineForm, factor: int, width: int, m: int)
    requires
        m >= 2,
        width >= 0,
        a.wf(width, m),
        b.wf(width, m),
    ensures
        a.plus(b, m).wf(width, m),
        a.minus(b, m).wf(width, m),
        a.scaled(factor, m).wf(width, m),
{
    lemma_mod_bound(a.offset + b.offset, m);
    lemma_mod_bound(a.offset - b.offset, m);
    lemma_mod_bound(factor * a.offset, m);
    assert forall|k: int| 0 <= k < width implies 0 <= #[trigger] a.plus(b, m).current[k] < m by {
        lemma_mod_bound(a.current[k] + b.current[k], m);
    }
    assert forall|k: int| 0 <= k < width implies 0 <= #[trigger] a.plus(b, m).next[k] < m by {
        lemma_mod_bound(a.next[k] + b.next[k], m);
    }
    assert forall|k: int| 0 <= k < width implies 0 <= #[trigger] a.minus(b, m).current[k] < m by {
        lemma_mod_bound(a.current[k] - b.current[k], m);
    }
    assert forall|k: int| 0 <= k < width implies 0 <= #[trigger] a.minus(b, m).next[k] < m by {
        lemma_mod_bound(a.next[k] - b.next[k], m);
    }
    assert forall|k: int| 0 <= k < width implies 0 <= #[trigger] a.scaled(factor, m).current[k]
        < m by {
        lemma_mod_bound(factor * a.current[k], m);
    }
    assert forall|k: int| 0 <= k < width implies 0 <= #[trigger] a.scaled(factor, m).next[k]
        < m by {
        lemma_mod_bound(factor * a.next[k], m);
    }
}

/// Constants and single cells are well-formed forms.
pub proof fn lemma_leaves_wf(width: nat, value: int, column: int, next: bool, m: int)
    requires
        m >= 2,
        0 <= value < m,
    ensures
        AffineForm::constant(width, value).wf(width as int, m),
        AffineForm::unit(width, column, next).wf(width as int, m),
{
}

/// What an affine expression that must be zero says of its cells.
#[derive(Clone, Copy, Debug, PartialEq, Eq, Structural)]
pub enum Solution {
    /// The expression is the constant zero.
    Satisfied,
    /// The expression is a constant other than zero.
    Contradiction,
    /// The expression has one open cell, which must have this value.
    Assignment { column: usize, next: bool, value: u64 },
    /// The expression has several open cells, or one whose coefficient has no inverse.
    Undetermined,
}

/// With `inverse` the inverse of `a`, the value `-offset * inverse` solves
/// `a * value + offset = 0`.
pub proof fn lemma_solves(m: int, a: int, offset: int, inverse: int, negated: int, value: int)
    requires
        m >= 2,
        (a * inverse) % m == 1,
        negated == (-offset) % m,
        value == (negated * inverse) % m,
    ensures
        (a * value + offset) % m == 0,
{
    // value = -offset * inverse, so a * value = -offset * (a * inverse) = -offset.
    lemma_mod_twice(-offset, m);
    assert(congruent(negated, -offset, m));
    lemma_congruent_scale(negated, -offset, inverse, m);
    lemma_mod_twice(negated * inverse, m);
    assert(congruent(value, (-offset) * inverse, m));
    lemma_congruent_scale(value, (-offset) * inverse, a, m);
    assert(a * ((-offset) * inverse) == (-offset) * (a * inverse)) by (nonlinear_arith);
    lemma_small_mod(1, m as nat);
    assert(congruent(a * inverse, 1, m));
    lemma_congruent_scale(a * inverse, 1, -offset, m);
    assert((-offset) * 1 == -offset);
    assert(congruent(a * value, -offset, m));
    lemma_mod_twice(offset, m);
    lemma_congruent_add(a * value, -offset, offset, offset, m);
    assert(-offset + offset == 0);
    lemma_small_mod(0, m as nat);
}

/// An equation `a * x + offset = 0` with invertible `a` has one solution only.
pub proof fn lemma_solution_unique(m: int, a: int, offset: int, inverse: int, x: int, y: int)
    requires
        m >= 2,
        (a * inverse) % m == 1,
        0 <= x < m,
        0 <= y < m,
        (a * x + offset) % m == 0,
        (a * y + offset) % m == 0,
    ensures
        x == y,
{
    // a * x = a * y, and multiplying by the inverse gives x = y.
    lemma_congruent_add(a * x + offset, a * y + offset, -offset, -offset, m);
    assert(congruent(a * x, a * y, m));
    lemma_congruent_scale(a * x, a * y, inverse, m);
    assert(inverse * (a * x) == (a * inverse) * x) by (nonlinear_arith);
    assert(inverse * (a * y) == (a * inverse) * y) by (nonlinear_arith);
    lemma_small_mod(1, m as nat);
    lemma_congruent_scale(a * inverse, 1, x, m);
    lemma_congruent_scale(a * inverse, 1, y, m);
    assert(1 * x == x);
    assert(1 * y == y);
    lemma_small_mod(x as nat, m as nat);
    lemma_small_mod(y as nat, m as nat);
}

/// The coefficients of an affine expression, as held in memory: field elements.
pub struct AffineExpression {
    pub current: Vec<u64>,
    pub next: Vec<u64>,
    pub offset: u64,
}

impl View for AffineExpression {
    type V = AffineForm;

    open spec fn view(&self) -> AffineForm {
        AffineForm {
            current: ints(self.current@),
            next: ints(self.next@),
            offset: self.offset as int,
        }
    }
}

/// A vector of `len` zeros.
fn zeros(len: usize) -> (r: Vec<u64>)
    ensures
        ints(r@) == seq_zero(len as nat),
        r@.len() == len,
        forall|j: int| 0 <= j < len ==> #[trigger] r@[j] == 0,
{
    let mut r: Vec<u64> = Vec::new();
    let mut k: usize = 0;
    while k < len
        invariant
            k <= len,
            r@.len() == k,
            forall|j: int| 0 <= j < k ==> #[trigger] r@[j] == 0,
        decreases len - k,
    {
        r.push(0);
        k += 1;
    }
    assert(ints(r@) =~= seq_zero(len as nat));
    r
}

fn plus(field: &Field, a: &Vec<u64>, b: &Vec<u64>) -> (r: Vec<u64>)
    requires
        field.wf(),
        a@.len() == b@.len(),
    ensures
        ints(r@) == seq_plus(ints(a@), ints(b@), field.modulus as int),
        r@.len() == a@.len(),
        forall|k: int| 0 <= k < r@.len() ==> #[trigger] r@[k] < field.modulus,
{
    let mut r: Vec<u64> = Vec::new();
    let mut k: usize = 0;
    while k < a.len()
        invariant
            field.wf(),
            k <= a@.len(),
            a@.len() == b@.len(),
            r@.len() == k,
            forall|j: int|
                0 <= j < k ==> #[trigger] r@[j] == (a@[j] + b@[j]) % (field.modulus as int),
            forall|j: int| 0 <= j < k ==> #[trigger] r@[j] < field.modulus,
        decreases a.len() - k,
    {
        r.push(field.add(a[k], b[k]));
        k += 1;
    }
    assert(ints(r@) =~= seq_plus(ints(a@), ints(b@), field.modulus as int));
    r
}

fn minus(field: &Field, a: &Vec<u64>, b: &Vec<u64>) -> (r: Vec<u64>)
    requires
        field.wf(),
        a@.len() == b@.len(),
        forall|k: int| 0 <= k < a@.len() ==> #[trigger] a@[k] < field.modulus,
        forall|k: int| 0 <= k < b@.len() ==> #[trigger] b@[k] < field.modulus,
    ensures
        ints(r@) == seq_minus(ints(a@), ints(b@), field.modulus as int),
        r@.len() == a@.len(),
        forall|k: int| 0 <= k < r@.len() ==> #[trigger] r@[k] < field.modulus,
{
    let mut r: Vec<u64> = Vec::new();
    let mut k: usize = 0;
    while k < a.len()
        invariant
            field.wf(),
            k <= a@.len(),
            a@.len() == b@.len(),
            forall|j: int| 0 <= j < a@.len() ==> #[trigger] a@[j] < field.modulus,
            forall|j: int| 0 <= j < b@.len() ==> #[trigger] b@[j] < field.modulus,
            r@.len() == k,
            forall|j: int|
                0 <= j < k ==> #[trigger] r@[j] == (a@[j] - b@[j]) % (field.modulus as int),
            forall|j: int| 0 <= j < k ==> #[trigger] r@[j] < field.modulus,
        decreases a.len() - k,
    {
        r.push(field.sub(a[k], b[k]));
        k += 1;
    }
    assert(ints(r@) =~= seq_minus(ints(a@), ints(b@), field.modulus as int));
    r
}

fn scaled(field: &Field, a: &Vec<u64>, factor: u64) -> (r: Vec<u64>)
    requires
        field.wf(),
    ensures
        ints(r@) == seq_scaled(ints(a@), factor as int, field.modulus as int),
        r@.len() == a@.len(),
        forall|k: int| 0 <= k < r@.len() ==> #[trigger] r@[k] < field.modulus,
{
    let mut r: Vec<u64> = Vec::new();
    let mut k: usize = 0;
    while k < a.len()
        invariant
            field.wf(),
            k <= a@.len(),
            r@.len() == k,
            forall|j: int|
                0 <= j < k ==> #[trigger] r@[j] == (factor * a@[j]) % (field.modulus as int),
            forall|j: int| 0 <= j < k ==> #[trigger] r@[j] < field.modulus,
        decreases a.len() - k,
    {
        r.push(field.mul(factor, a[k]));
        k += 1;
    }
    assert(ints(r@) =~= seq_scaled(ints(a@), factor as int, field.modulus as int));
    r
}

/// The index of the first entry other than zero at or after `from`, if there is one.
fn first_nonzero(a: &Vec<u64>, from: usize) -> (r: Option<usize>)
    ensures
        match r {
            Some(k) => from <= k < a@.len() && a@[k as int] != 0 && forall|j: int|
                from <= j < k ==> #[trigger] a@[j] == 0,
            None => forall|j: int| from <= j < a@.len() ==> #[trigger] a@[j] == 0,
        },
{
    let mut k: usize = from;
    while k < a.len()
        invariant
            from <= k,
            forall|j: int| from <= j < k && j < a@.len() ==> #[trigger] a@[j] == 0,
        decreases a.len() - k,
    {
        if a[k] != 0 {
            return Some(k);
        }
        k += 1;
    }
    None
}

impl AffineExpression {
    /// The expression has a coefficient for every witness column on either
    /// row, and all its numbers are field elements.
    pub open spec fn wf(&self, width: int, field: Field) -> bool {
        self@.wf(width, field.modulus as int)
    }

    /// The constant expression.
    pub fn constant(width: usize, value: u64) -> (r: AffineExpression)
        ensures
            r@ == AffineForm::constant(width as nat, value as int),
    {
        AffineExpression { current: zeros(width), next: zeros(width), offset: value }
    }

    /// The expression that is one open cell.
    pub fn unit(width: usize, column: usize, next: bool) -> (r: AffineExpression)
        requires
            column < width,
        ensures
            r@ == AffineForm::unit(width as nat, column as int, next),
    {
        let mut one: Vec<u64> = zeros(width);
        one.set(column, 1);
        assert(ints(one@) =~= seq_unit(width as nat, column as int));
        if next {
            AffineExpression { current: zeros(width), next: one, offset: 0 }
        } else {
            AffineExpression { current: one, next: zeros(width), offset: 0 }
        }
    }

    pub fn add(&self, other: &AffineExpression, field: &Field) -> (r: AffineExpression)
        requires
            field.wf(),
            self@.current.len() == other@.current.len(),
            self@.next.len() == other@.next.len(),
        ensures
            r@ == self@.plus(other@, field.modulus as int),
    {
        AffineExpression {
            current: plus(field, &self.current, &other.current),
            next: plus(field, &self.next, &other.next),
            offset: field.add(self.offset, other.offset),
        }
    }

    pub fn sub(&self, other: &AffineExpression, field: &Field) -> (r: AffineExpression)
        requires
            field.wf(),
            self.wf(self@.current.len() as int, *field),
            other.wf(self@.current.len() as int, *field),
        ensures
            r@ == self@.minus(other@, field.modulus as int),
    {
        proof {
            assert forall|k: int| 0 <= k < self.current@.len() implies #[trigger] self.current@[k]
                < field.modulus by {
                assert(self@.current[k] == self.current@[k]);
            }
            assert forall|k: int| 0 <= k < self.next@.len() implies #[trigger] self.next@[k]
                < field.modulus by {
                assert(self@.next[k] == self.next@[k]);
            }
            assert forall|k: int| 0 <= k < other.current@.len() implies #[trigger] other.current@[k]
                < field.modulus by {
                assert(other@.current[k] == other.current@[k]);
            }
            assert forall|k: int| 0 <= k < other.next@.len() implies #[trigger] other.next@[k]
                < field.modulus by {
                assert(other@.next[k] == other.next@[k]);
            }
        }
        AffineExpression {
            current: minus(field, &self.current, &other.current),
            next: minus(field, &self.next, &other.next),
            offset: field.sub(self.offset, other.offset),
        }
    }

    /// The expression multiplied by a number.
    pub fn scale(&self, factor: u64, field: &Field) -> (r: AffineExpression)
        requires
            field.wf(),
        ensures
            r@ == self@.scaled(factor as int, field.modulus as int),
    {
        AffineExpression {
            current: scaled(field, &self.current, factor),
            next: scaled(field, &self.next, factor),
            offset: field.mul(factor, self.offset),
        }
    }

    pub fn is_constant(&self) -> (r: bool)
        ensures
            r == self@.is_constant(),
    {
        let a: Option<usize> = first_nonzero(&self.current, 0);
        let b: Option<usize> = first_nonzero(&self.next, 0);
        proof {
            match a {
                Some(k) => {
                    assert(self@.current[k as int] == self.current@[k as int]);
                },
                None => {
                    assert forall|k: int| 0 <= k < self@.current.len() implies #[trigger] self@.current[k]
                        == 0 by {
                        assert(self.current@[k] == 0);
                    }
                },
            }
            match b {
                Some(k) => {
                    assert(self@.next[k as int] == self.next@[k as int]);
                },
                None => {
                    assert forall|k: int| 0 <= k < self@.next.len() implies #[trigger] self@.next[k]
                        == 0 by {
                        assert(self.next@[k] == 0);
                    }
                },
            }
        }
        a.is_none() && b.is_none()
    }

    /// The cell that is the only one with a coefficient other than zero, if
    /// there is exactly one such cell.
    pub fn only_unknown(&self) -> (r: Option<(usize, bool)>)
        requires
            self@.current.len() == self@.next.len(),
        ensures
            match r {
                Some((column, next)) => self@.only_unknown(column as int, next),
                None => forall|column: int, next: bool| !self@.only_unknown(column, next),
            },
    {
        let a: Option<usize> = first_nonzero(&self.current, 0);
        let b: Option<usize> = first_nonzero(&self.next, 0);
        match (a, b) {
            (Some(k), None) => {
                let len: usize = self.current.len();
                let rest: Option<usize> = first_nonzero(&self.current, k + 1);
                proof {
                    assert(self@.current[k as int] == self.current@[k as int]);
                    assert forall|j: int| 0 <= j < self@.next.len() implies #[trigger] self@.next[j]
                        == 0 by {
                        assert(self.next@[j] == 0);
                    }
                }
                match rest {
                    Some(k2) => {
                        proof {
                            assert(self@.current[k2 as int] == self.current@[k2 as int]);
                            assert forall|column: int, next: bool| !self@.only_unknown(
                                column,
                                next,
                            ) by {
                                if self@.only_unknown(column, next) {
                                    if next || column != k {
                                        assert(self@.current[k as int] == 0);
                                    } else {
                                        assert(self@.current[k2 as int] == 0);
                                    }
                                }
                            }
                        }
                        None
                    },
                    None => {
                        proof {
                            assert forall|j: int|
                                0 <= j < self@.current.len() && j != k implies #[trigger] self@.current[j]
                                == 0 by {
                                assert(self.current@[j] == 0);
                            }
                        }
                        Some((k, false))
                    },
                }
            },
            (None, Some(k)) => {
                let len: usize = self.next.len();
                let rest: Option<usize> = first_nonzero(&self.next, k + 1);
                proof {
                    assert(self@.next[k as int] == self.next@[k as int]);
                    assert forall|j: int| 0 <= j < self@.current.len() implies #[trigger] self@.current[j]
                        == 0 by {
                        assert(self.current@[j] == 0);
                    }
                }
                match rest {
                    Some(k2) => {
                        proof {
                            assert(self@.next[k2 as int] == self.next@[k2 as int]);
                            assert forall|column: int, next: bool| !self@.only_unknown(
                                column,
                                next,
                            ) by {
                                if self@.only_unknown(column, next) {
                                    if !next || column != k {
                                        assert(self@.next[k as int] == 0);
                                    } else {
                                        assert(self@.next[k2 as int] == 0);
                                    }
                                }
                            }
                        }
                        None
                    },
                    None => {
                        proof {
                            assert forall|j: int|
                                0 <= j < self@.next.len() && j != k implies #[trigger] self@.next[j]
                                == 0 by {
                                assert(self.next@[j] == 0);
                            }
                        }
                        Some((k, true))
                    },
                }
            },
            (Some(k1), Some(k2)) => {
                proof {
                    assert(self@.current[k1 as int] == self.current@[k1 as int]);
                    assert(self@.next[k2 as int] == self.next@[k2 as int]);
                    assert forall|column: int, next: bool| !self@.only_unknown(column, next) by {
                        if self@.only_unknown(column, next) {
                            if next {
                                assert(self@.current[k1 as int] == 0);
                            } else {
                                assert(self@.next[k2 as int] == 0);
                            }
                        }
                    }
                }
                None
            },
            (None, None) => {
                proof {
                    assert forall|column: int, next: bool| !self@.only_unknown(column, next) by {
                        if self@.only_unknown(column, next) {
                            if next {
                                assert(self.next@[column] == 0);
                            } else {
                                assert(self.current@[column] == 0);
                            }
                        }
                    }
                }
                None
            },
        }
    }

    /// Solves `self = 0`: a constant is satisfied or contradictory; one open
    /// cell with an invertible coefficient gets the one value that makes the
    /// expression zero; anything else stays undetermined.
    pub fn solve(&self, field: &Field) -> (r: Solution)
        requires
            field.wf(),
            self.wf(self@.current.len() as int, *field),
        ensures
            match r {
                Solution::Satisfied => self@.is_constant() && self@.offset == 0,
                Solution::Contradiction => self@.is_constant() && self@.offset != 0,
                Solution::Assignment { column, next, value } => {
                    &&& self@.only_unknown(column as int, next)
                    &&& value < field.modulus
                    &&& (self@.coefficient(column as int, next) * value + self@.offset) % (
                    field.modulus as int) == 0
                    &&& exists|x: int| field.is_inverse(self@.coefficient(column as int, next), x)
                },
                Solution::Undetermined => {
                    &&& !self@.is_constant()
                    &&& forall|column: int, next: bool, x: int|
                        self@.only_unknown(column, next) ==> !#[trigger] field.is_inverse(
                            self@.coefficient(column, next),
                            x,
                        )
                },
            },
    {
        if self.is_constant() {
            if self.offset == 0 {
                return Solution::Satisfied;
            } else {
                return Solution::Contradiction;
            }
        }
        match self.only_unknown() {
            Some((column, next)) => {
                let a: u64 = if next {
                    self.next[column]
                } else {
                    self.current[column]
                };
                assert(a as int == self@.coefficient(column as int, next));
                assert(a < field.modulus);
                match field.inverse(a) {
                    Some(inverse) => {
                        let negated: u64 = field.neg(self.offset);
                        let value: u64 = field.mul(negated, inverse);
                        proof {
                            lemma_solves(
                                field.modulus as int,
                                a as int,
                                self.offset as int,
                                inverse as int,
                                negated as int,
                                value as int,
                            );
                            assert(field.is_inverse(a as int, inverse as int));
                        }
                        Solution::Assignment { column, next, value }
                    },
                    None => {
                        proof {
                            assert forall|c: int, n: bool, x: int|
                                self@.only_unknown(c, n) implies !#[trigger] field.is_inverse(
                                self@.coefficient(c, n),
                                x,
                            ) by {
                                if self@.only_unknown(c, n) {
                                    assert(c == column && n == next);
                                }
                            }
                        }
                        Solution::Undetermined
                    },
                }
            },
            None => Solution::Undetermined,
        }
    }
}

} // verus!
