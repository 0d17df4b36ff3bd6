//! Arithmetic on field elements.
//!
//! Elements are the `u64` values below a modulus chosen at run time. Every
//! operation is exact in the ring of integers modulo that number; for a prime
//! modulus this ring is the prime field, and every non-zero element has an
//! inverse.

use vstd::prelude::*;
use vstd::arithmetic::div_mod::*;

verus! {

/// The integers modulo `modulus`.
#[derive(Clone, Copy, Debug)]
pub struct Field {
    pub modulus: u64,
}

/// `x` and `y` leave the same remainder modulo `m`.
pub open spec fn congruent(x: int, y: int, m: int) -> bool {
    x % m == y % m
}

/// Whether the number is a prime: it is at least two, and no number between
/// one and itself divides it.
pub open spec fn is_prime(p: int) -> bool {
    &&& p >= 2
    &&& forall|d: int| 1 < d < p ==> #[trigger] (p % d) != 0
}

/// Modulo a prime, the product of two elements that are not zero is not zero.
pub proof fn lemma_prime_product(p: int, a: int, b: int)
    requires
        is_prime(p),
        0 < a < p,
        0 < b < p,
    ensures
        (a * b) % p != 0,
    decreases a,
{
    if (a * b) % p == 0 {
        if a == 1 {
            assert(a * b == b) by (nonlinear_arith)
                requires
                    a == 1,
            ;
            lemma_small_mod(b as nat, p as nat);
        } else {
            let q = p / a;
            let r = p % a;
            let k = (a * b) / p;
            lemma_fundamental_div_mod(p, a);
            lemma_mod_pos_bound(p, a);
            assert(r != 0);
            lemma_fundamental_div_mod(a * b, p);
            assert(r * b == (b - q * k) * p) by (nonlinear_arith)
                requires
                    p == a * q + r,
                    a * b == p * k,
            ;
            lemma_mod_multiples_basic(b - q * k, p);
            lemma_prime_product(p, r, b);
        }
    }
}

/// Multiplying both sides of a congruence by the same number keeps it.
pub proof fn lemma_congruent_scale(x: int, y: int, z: int, m: int)
    requires
        m > 0,
        congruent(x, y, m),
    ensures
        congruent(x * z, y * z, m),
        congruent(z * x, z * y, m),
{
    lemma_mul_mod_noop_left(x, z, m);
    lemma_mul_mod_noop_left(y, z, m);
    lemma_mul_mod_noop_right(z, x, m);
    lemma_mul_mod_noop_right(z, y, m);
}

/// Subtracting congruent numbers from congruent numbers keeps the congruence.
pub proof fn lemma_congruent_sub(x1: int, y1: int, x2: int, y2: int, m: int)
    requires
        m > 0,
        congruent(x1, y1, m),
        congruent(x2, y2, m),
    ensures
        congruent(x1 - x2, y1 - y2, m),
{
    lemma_sub_mod_noop(x1, x2, m);
    lemma_sub_mod_noop(y1, y2, m);
}

/// Adding congruent numbers to congruent numbers keeps the congruence.
pub proof fn lemma_congruent_add(x1: int, y1: int, x2: int, y2: int, m: int)
    requires
        m > 0,
        congruent(x1, y1, m),
        congruent(x2, y2, m),
    ensures
        congruent(x1 + x2, y1 + y2, m),
{
    lemma_add_mod_noop(x1, x2, m);
    lemma_add_mod_noop(y1, y2, m);
}

/// One step of the Euclidean algorithm keeps the cofactor relation: where
/// `r0 = s0 * a` and `r1 = s1 * a` modulo `m`, the next remainder `r0 - q * r1`
/// is `s2 * a` for the next cofactor `s2`.
proof fn lemma_cofactor_step(m: int, a: int, q: int, r0: int, r1: int, s0: int, s1: int, s2: int)
    requires
        m > 0,
        congruent(s0 * a, r0, m),
        congruent(s1 * a, r1, m),
        s2 == (s0 - ((q % m) * s1) % m) % m,
    ensures
        congruent(s2 * a, r0 - q * r1, m),
{
    let p = ((q % m) * s1) % m;
    // p is q * s1 modulo m
    lemma_mul_mod_noop_left(q, s1, m);
    lemma_mod_twice(q * s1, m);
    assert(congruent(p, q * s1, m));
    lemma_congruent_scale(p, q * s1, a, m);
    assert(congruent(p * a, (q * s1) * a, m));
    assert((q * s1) * a == q * (s1 * a)) by (nonlinear_arith);
    lemma_congruent_scale(s1 * a, r1, q, m);
    assert(congruent(p * a, q * r1, m));
    // s2 is s0 - p modulo m
    lemma_mod_twice(s0 - p, m);
    assert(congruent(s2, s0 - p, m));
    lemma_congruent_scale(s2, s0 - p, a, m);
    assert((s0 - p) * a == s0 * a - p * a) by (nonlinear_arith);
    lemma_congruent_sub(s0 * a, r0, p * a, q * r1, m);
}

/// A common factor of `a` and `m` that is at least two rules out an inverse of
/// `a` modulo `m`.
proof fn lemma_common_factor_no_inverse(m: int, a: int, g: int, alpha: int, gamma: int, x: int)
    requires
        m >= 2,
        g >= 2,
        a == alpha * g,
        m == gamma * g,
    ensures
        (a * x) % m != 1,
{
    if (a * x) % m == 1 {
        lemma_fundamental_div_mod(a * x, m);
        let k = (a * x) / m;
        assert(a * x == m * k + 1);
        assert(g * (alpha * x - gamma * k) == 1) by (nonlinear_arith)
            requires
                a == alpha * g,
                m == gamma * g,
                a * x == m * k + 1,
        ;
        let t = alpha * x - gamma * k;
        assert(false) by (nonlinear_arith)
            requires
                g >= 2,
                g * t == 1,
        ;
    }
}

/// An element has at most one inverse.
pub proof fn lemma_inverse_unique(m: int, a: int, x: int, y: int)
    requires
        m >= 2,
        0 <= x < m,
        0 <= y < m,
        (a * x) % m == 1,
        (a * y) % m == 1,
    ensures
        x == y,
{
    // x = x * (a * y) = (x * a) * y = y   (mod m)
    lemma_mul_mod_noop_right(x, a * y, m);
    assert((x * (a * y)) % m == (x * 1) % m);
    lemma_mul_mod_noop_left(a * x, y, m);
    assert(((a * x) * y) % m == (1 * y) % m);
    assert(x * (a * y) == (a * x) * y) by (nonlinear_arith);
    lemma_small_mod(x as nat, m as nat);
    lemma_small_mod(y as nat, m as nat);
}

impl Field {
    /// A modulus below two leaves no room for distinct 0 and 1.
    pub open spec fn wf(self) -> bool {
        self.modulus >= 2
    }

    /// Whether `x` is (the canonical representative of) an element.
    pub open spec fn contains(self, x: u64) -> bool {
        x < self.modulus
    }

    pub open spec fn sum(self, a: int, b: int) -> int {
        (a + b) % (self.modulus as int)
    }

    pub open spec fn difference(self, a: int, b: int) -> int {
        (a - b) % (self.modulus as int)
    }

    pub open spec fn product(self, a: int, b: int) -> int {
        (a * b) % (self.modulus as int)
    }

    pub open spec fn negation(self, a: int) -> int {
        (-a) % (self.modulus as int)
    }

    /// `x` is the element with `a * x = 1`.
    pub open spec fn is_inverse(self, a: int, x: int) -> bool {
        0 <= x < self.modulus && (a * x) % (self.modulus as int) == 1
    }

    /// The field with the given modulus, if there is one.
    pub fn new(modulus: u64) -> (r: Option<Field>)
        ensures
            r == (if modulus >= 2 {
                Some(Field { modulus })
            } else {
                None
            }),
    {
        if modulus >= 2 {
            Some(Field { modulus })
        } else {
            None
        }
    }

    /// The element that an unsigned integer stands for.
    pub fn reduce(&self, x: u64) -> (r: u64)
        requires
            self.wf(),
        ensures
            r == x % self.modulus,
            self.contains(r),
    {
        x % self.modulus
    }

    pub fn add(&self, a: u64, b: u64) -> (r: u64)
        requires
            self.wf(),
        ensures
            r == self.sum(a as int, b as int),
            self.contains(r),
    {
        let wide: u128 = (a as u128) + (b as u128);
        let reduced: u128 = wide % (self.modulus as u128);
        reduced as u64
    }

    pub fn sub(&self, a: u64, b: u64) -> (r: u64)
        requires
            self.wf(),
            self.contains(a),
            self.contains(b),
        ensures
            r == self.difference(a as int, b as int),
            self.contains(r),
    {
        let m: u64 = self.modulus;
        if a >= b {
            proof {
                lemma_small_mod((a - b) as nat, m as nat);
            }
            a - b
        } else {
            let r: u64 = m - (b - a);
            proof {
                lemma_small_mod(r as nat, m as nat);
                lemma_mod_add_multiples_vanish(a as int - b as int, m as int);
            }
            r
        }
    }

    pub fn neg(&self, a: u64) -> (r: u64)
        requires
            self.wf(),
            self.contains(a),
        ensures
            r == self.negation(a as int),
            self.contains(r),
    {
        self.sub(0, a)
    }

    pub fn mul(&self, a: u64, b: u64) -> (r: u64)
        requires
            self.wf(),
        ensures
            r == self.product(a as int, b as int),
            self.contains(r),
    {
        assert(a as int * b as int <= u64::MAX as int * u64::MAX as int) by (nonlinear_arith)
            requires
                0 <= a as int <= u64::MAX as int,
                0 <= b as int <= u64::MAX as int,
        ;
        let wide: u128 = (a as u128) * (b as u128);
        let reduced: u128 = wide % (self.modulus as u128);
        reduced as u64
    }

    /// The inverse of `a`, by the extended Euclidean algorithm; `None` exactly
    /// where `a` has no inverse (which, for a prime modulus, is where `a` is 0).
    pub fn inverse(&self, a: u64) -> (r: Option<u64>)
        requires
            self.wf(),
            self.contains(a),
        ensures
            match r {
                Some(x) => self.is_inverse(a as int, x as int) && forall|y: int|
                    self.is_inverse(a as int, y) ==> y == x,
                None => forall|x: int| !self.is_inverse(a as int, x),
            },
    {
        let m: u64 = self.modulus;
        let mut r0: u64 = m;
        let mut r1: u64 = a;
        let mut s0: u64 = 0;
        let mut s1: u64 = 1;
        let ghost mut alpha: int = 0;
        let ghost mut beta: int = 1;
        let ghost mut gamma: int = 1;
        let ghost mut delta: int = 0;
        proof {
            lemma_mod_self_0(m as int);
            lemma_small_mod(0nat, m as nat);
            assert(0 * (a as int) == 0);
            assert(1 * (a as int) == a as int);
        }
        while r1 != 0
            invariant
                m == self.modulus,
                m >= 2,
                a < m,
                r0 <= m,
                r1 <= m,
                r0 > 0,
                s0 < m,
                s1 < m,
                congruent(s0 as int * a as int, r0 as int, m as int),
                congruent(s1 as int * a as int, r1 as int, m as int),
                a as int == alpha * r0 as int + beta * r1 as int,
                m as int == gamma * r0 as int + delta * r1 as int,
            decreases r1,
        {
            let q: u64 = r0 / r1;
            let r2: u64 = r0 % r1;
            let t: u64 = self.mul(self.reduce(q), s1);
            let s2: u64 = self.sub(s0, t);
            proof {
                lemma_fundamental_div_mod(r0 as int, r1 as int);
                assert(r2 as int == r0 as int - q as int * r1 as int) by (nonlinear_arith)
                    requires
                        r0 as int == r1 as int * (q as int) + r2 as int,
                ;
                lemma_cofactor_step(
                    m as int,
                    a as int,
                    q as int,
                    r0 as int,
                    r1 as int,
                    s0 as int,
                    s1 as int,
                    s2 as int,
                );
                let alpha2 = alpha * q as int + beta;
                let gamma2 = gamma * q as int + delta;
                assert(a as int == alpha2 * r1 as int + alpha * r2 as int) by (nonlinear_arith)
                    requires
                        a as int == alpha * r0 as int + beta * r1 as int,
                        r0 as int == r1 as int * (q as int) + r2 as int,
                        alpha2 == alpha * q as int + beta,
                ;
                assert(m as int == gamma2 * r1 as int + gamma * r2 as int) by (nonlinear_arith)
                    requires
                        m as int == gamma * r0 as int + delta * r1 as int,
                        r0 as int == r1 as int * (q as int) + r2 as int,
                        gamma2 == gamma * q as int + delta,
                ;
                beta = alpha;
                alpha = alpha2;
                delta = gamma;
                gamma = gamma2;
            }
            r0 = r1;
            r1 = r2;
            s0 = s1;
            s1 = s2;
        }
        if r0 == 1 {
            proof {
                lemma_small_mod(1nat, m as nat);
                assert(s0 as int * a as int == a as int * s0 as int) by (nonlinear_arith);
                assert forall|y: int| self.is_inverse(a as int, y) implies y == s0 by {
                    lemma_inverse_unique(m as int, a as int, y, s0 as int);
                }
            }
            Some(s0)
        } else {
            proof {
                assert(alpha * r0 as int + beta * 0 == alpha * r0 as int) by (nonlinear_arith);
                assert(gamma * r0 as int + delta * 0 == gamma * r0 as int) by (nonlinear_arith);
                assert forall|x: int| !self.is_inverse(a as int, x) by {
                    lemma_common_factor_no_inverse(m as int, a as int, r0 as int, alpha, gamma, x);
                }
            }
            None
        }
    }
}

} // verus!
