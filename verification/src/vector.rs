//! Three-component vectors over fixed-point scalars.  A component is an
//! `i64` holding `SCALE` times the modelled value; every operation states its
//! exact integer result, including the truncation its divisions perform.
use vstd::prelude::*;

use crate::num::{div_trunc, isqrt, lemma_sqrt_floor, lemma_tdiv_bound, sqrt_floor, tdiv};
use crate::SCALE;

verus! {

/// Componentwise magnitude bound under which the vector operations below are
/// free of overflow.
pub const VEC_LIMIT: i64 = 2305843009213693952;

/// Bound for the operations that square or normalize a vector.
pub const NORM_LIMIT: i64 = 1073741824;

#[derive(Clone, Copy, Debug, PartialEq, Eq, Structural)]
pub struct Vec3 {
    pub x: i64,
    pub y: i64,
    pub z: i64,
}

/// Dot product as an unbounded integer.
pub open spec fn dot3(a: Vec3, b: Vec3) -> int {
    a.x * b.x + a.y * b.y + a.z * b.z
}

/// Component along axis `a` (x for 0, y for 1, z otherwise).
pub open spec fn axis3(v: Vec3, a: int) -> int {
    if a == 0 {
        v.x as int
    } else if a == 1 {
        v.y as int
    } else {
        v.z as int
    }
}

impl Vec3 {
    /// All components within `[-m, m]`.
    pub open spec fn bounded(self, m: int) -> bool {
        &&& -m <= self.x <= m
        &&& -m <= self.y <= m
        &&& -m <= self.z <= m
    }

    pub open spec fn is_zero(self) -> bool {
        self.x == 0 && self.y == 0 && self.z == 0
    }

    pub fn new(x: i64, y: i64, z: i64) -> (v: Vec3)
        ensures
            v == (Vec3 { x, y, z }),
    {
        Vec3 { x, y, z }
    }

    pub fn add(&self, o: &Vec3) -> (v: Vec3)
        requires
            self.bounded(VEC_LIMIT as int),
            o.bounded(VEC_LIMIT as int),
        ensures
            v.x == self.x + o.x,
            v.y == self.y + o.y,
            v.z == self.z + o.z,
    {
        Vec3 { x: self.x + o.x, y: self.y + o.y, z: self.z + o.z }
    }

    pub fn sub(&self, o: &Vec3) -> (v: Vec3)
        requires
            self.bounded(VEC_LIMIT as int),
            o.bounded(VEC_LIMIT as int),
        ensures
            v.x == self.x - o.x,
            v.y == self.y - o.y,
            v.z == self.z - o.z,
    {
        Vec3 { x: self.x - o.x, y: self.y - o.y, z: self.z - o.z }
    }

    pub fn neg(&self) -> (v: Vec3)
        requires
            self.bounded(VEC_LIMIT as int),
        ensures
            v.x == -self.x,
            v.y == -self.y,
            v.z == -self.z,
    {
        Vec3 { x: -self.x, y: -self.y, z: -self.z }
    }

    /// Exact dot product.
    pub fn dot(&self, o: &Vec3) -> (d: i128)
        requires
            self.bounded(VEC_LIMIT as int),
            o.bounded(VEC_LIMIT as int),
        ensures
            d == dot3(*self, *o),
    {
        proof {
            lemma_dot_product_bound(*self, *o, VEC_LIMIT as int);
        }
        (self.x as i128) * (o.x as i128) + (self.y as i128) * (o.y as i128) + (self.z as i128)
            * (o.z as i128)
    }

    /// Component along axis `a`.
    pub fn axis(&self, a: u8) -> (r: i64)
        ensures
            r == axis3(*self, a as int),
    {
        if a == 0 {
            self.x
        } else if a == 1 {
            self.y
        } else {
            self.z
        }
    }

    /// Each component multiplied by `k / SCALE`, truncating toward zero.
    pub fn scale_fp(&self, k: i64) -> (v: Vec3)
        requires
            self.bounded(NORM_LIMIT as int),
            -NORM_LIMIT <= k <= NORM_LIMIT,
        ensures
            v.x == tdiv(k * self.x, SCALE as int),
            v.y == tdiv(k * self.y, SCALE as int),
            v.z == tdiv(k * self.z, SCALE as int),
            v.bounded(NORM_LIMIT as int * NORM_LIMIT as int / SCALE as int + 1),
    {
        proof {
            lemma_scale_component(*self, k as int);
        }
        Vec3 {
            x: div_trunc((k as i128) * (self.x as i128), SCALE as i128) as i64,
            y: div_trunc((k as i128) * (self.y as i128), SCALE as i128) as i64,
            z: div_trunc((k as i128) * (self.z as i128), SCALE as i128) as i64,
        }
    }

    /// Fixed-point magnitude: the floor square root of the dot square.
    pub fn magn(&self) -> (m: i64)
        requires
            self.bounded(NORM_LIMIT as int),
        ensures
            m == sqrt_floor(dot3(*self, *self)),
            0 <= m <= 3 * NORM_LIMIT,
    {
        proof {
            lemma_dot_product_bound(*self, *self, NORM_LIMIT as int);
            lemma_self_dot_nonneg(*self);
        }
        let d = self.dot(self);
        let s = isqrt(d);
        proof {
            lemma_sqrt_floor(d as int);
            assert(s <= 3 * NORM_LIMIT) by (nonlinear_arith)
                requires
                    s >= 0,
                    s * s <= d,
                    d <= 3 * (NORM_LIMIT as int) * (NORM_LIMIT as int),
                    s == sqrt_floor(d as int),
            ;
        }
        s as i64
    }

    /// Scale to unit length: each component becomes `SCALE * c / |self|`,
    /// truncating toward zero.
    pub fn normalize(&self) -> (u: Vec3)
        requires
            self.bounded(NORM_LIMIT as int),
            !self.is_zero(),
        ensures
            u.x == tdiv(SCALE * self.x, sqrt_floor(dot3(*self, *self))),
            u.y == tdiv(SCALE * self.y, sqrt_floor(dot3(*self, *self))),
            u.z == tdiv(SCALE * self.z, sqrt_floor(dot3(*self, *self))),
            u.bounded(SCALE as int),
    {
        let m = self.magn();
        proof {
            lemma_magn_dominates(*self);
            lemma_tdiv_bound(SCALE as int * self.x, m as int, SCALE as int * NORM_LIMIT as int);
            lemma_tdiv_bound(SCALE as int * self.y, m as int, SCALE as int * NORM_LIMIT as int);
            lemma_tdiv_bound(SCALE as int * self.z, m as int, SCALE as int * NORM_LIMIT as int);
            lemma_unit_component(self.x as int, m as int);
            lemma_unit_component(self.y as int, m as int);
            lemma_unit_component(self.z as int, m as int);
        }
        Vec3 {
            x: div_trunc((SCALE as i128) * (self.x as i128), m as i128) as i64,
            y: div_trunc((SCALE as i128) * (self.y as i128), m as i128) as i64,
            z: div_trunc((SCALE as i128) * (self.z as i128), m as i128) as i64,
        }
    }
}

/// Componentwise bounds carry to the dot product.
pub proof fn lemma_dot_product_bound(a: Vec3, b: Vec3, m: int)
    requires
        m >= 0,
        a.bounded(m),
        b.bounded(m),
    ensures
        -3 * m * m <= dot3(a, b) <= 3 * m * m,
        -m * m <= a.x * b.x <= m * m,
        -m * m <= a.y * b.y <= m * m,
        -m * m <= a.z * b.z <= m * m,
{
    assert(-m * m <= a.x * b.x <= m * m && -m * m <= a.y * b.y <= m * m && -m * m <= a.z * b.z
        <= m * m) by (nonlinear_arith)
        requires
            m >= 0,
            -m <= a.x <= m,
            -m <= a.y <= m,
            -m <= a.z <= m,
            -m <= b.x <= m,
            -m <= b.y <= m,
            -m <= b.z <= m,
    ;
    assert(-3 * m * m <= a.x * b.x + a.y * b.y + a.z * b.z <= 3 * m * m) by (nonlinear_arith)
        requires
            m >= 0,
            -m <= a.x <= m,
            -m <= a.y <= m,
            -m <= a.z <= m,
            -m <= b.x <= m,
            -m <= b.y <= m,
            -m <= b.z <= m,
    ;
}

/// A vector dotted with itself is nonnegative, and zero only for the zero
/// vector.
pub proof fn lemma_self_dot_nonneg(a: Vec3)
    ensures
        dot3(a, a) >= 0,
        dot3(a, a) == 0 ==> a.is_zero(),
{
    assert(a.x * a.x + a.y * a.y + a.z * a.z >= 0 && (a.x * a.x + a.y * a.y + a.z * a.z == 0
        ==> a.x == 0 && a.y == 0 && a.z == 0)) by (nonlinear_arith);
}

/// The magnitude of a nonzero vector is positive and at least each component.
pub proof fn lemma_magn_dominates(a: Vec3)
    requires
        !a.is_zero(),
    ensures
        sqrt_floor(dot3(a, a)) >= 1,
        sqrt_floor(dot3(a, a)) >= a.x,
        sqrt_floor(dot3(a, a)) >= -a.x,
        sqrt_floor(dot3(a, a)) >= a.y,
        sqrt_floor(dot3(a, a)) >= -a.y,
        sqrt_floor(dot3(a, a)) >= a.z,
        sqrt_floor(dot3(a, a)) >= -a.z,
{
    lemma_self_dot_nonneg(a);
    let n = dot3(a, a);
    lemma_sqrt_floor(n);
    let s = sqrt_floor(n);
    assert(n >= 1) by (nonlinear_arith)
        requires
            !(a.x == 0 && a.y == 0 && a.z == 0),
            n == a.x * a.x + a.y * a.y + a.z * a.z,
    ;
    assert(s >= 1) by (nonlinear_arith)
        requires
            s >= 0,
            n >= 1,
            n < (s + 1) * (s + 1),
    ;
    assert(a.x * a.x <= n && a.y * a.y <= n && a.z * a.z <= n) by (nonlinear_arith)
        requires
            n == a.x * a.x + a.y * a.y + a.z * a.z,
    ;
    lemma_sqrt_dominates(a.x as int, n, s);
    lemma_sqrt_dominates(a.y as int, n, s);
    lemma_sqrt_dominates(a.z as int, n, s);
}

/// A square root bound dominates anything whose square it covers.
proof fn lemma_sqrt_dominates(c: int, n: int, s: int)
    requires
        s >= 0,
        c * c <= n,
        n < (s + 1) * (s + 1),
    ensures
        s >= c,
        s >= -c,
{
    assert(s >= c && s >= -c) by (nonlinear_arith)
        requires
            s >= 0,
            c * c <= n,
            n < (s + 1) * (s + 1),
    ;
}

/// A component divided by a dominating magnitude stays within one unit.
proof fn lemma_unit_component(c: int, m: int)
    requires
        m >= 1,
        m >= c,
        m >= -c,
    ensures
        -(SCALE as int) <= tdiv(SCALE as int * c, m) <= SCALE as int,
{
    assert(-(SCALE as int) * m <= SCALE as int * c <= SCALE as int * m) by (nonlinear_arith)
        requires
            m >= 1,
            -m <= c <= m,
    ;
    if SCALE as int * c >= 0 {
        assert((SCALE as int * c) / m <= SCALE as int) by (nonlinear_arith)
            requires
                m >= 1,
                SCALE as int * c <= SCALE as int * m,
                SCALE as int * c >= 0,
        ;
        assert((SCALE as int * c) / m >= 0) by (nonlinear_arith)
            requires
                m >= 1,
                SCALE as int * c >= 0,
        ;
    } else {
        assert((-(SCALE as int * c)) / m <= SCALE as int) by (nonlinear_arith)
            requires
                m >= 1,
                -(SCALE as int * c) <= SCALE as int * m,
                SCALE as int * c < 0,
        ;
        assert((-(SCALE as int * c)) / m >= 0) by (nonlinear_arith)
            requires
                m >= 1,
                SCALE as int * c < 0,
        ;
    }
}

/// Overflow envelope for `scale_fp`.
proof fn lemma_scale_component(v: Vec3, k: int)
    requires
        v.bounded(NORM_LIMIT as int),
        -(NORM_LIMIT as int) <= k <= NORM_LIMIT as int,
    ensures
        -(NORM_LIMIT as int) * (NORM_LIMIT as int) <= k * v.x <= (NORM_LIMIT as int) * (
        NORM_LIMIT as int),
        -(NORM_LIMIT as int) * (NORM_LIMIT as int) <= k * v.y <= (NORM_LIMIT as int) * (
        NORM_LIMIT as int),
        -(NORM_LIMIT as int) * (NORM_LIMIT as int) <= k * v.z <= (NORM_LIMIT as int) * (
        NORM_LIMIT as int),
        -(NORM_LIMIT as int) * (NORM_LIMIT as int) / SCALE as int - 1 <= tdiv(
            k * v.x,
            SCALE as int,
        ) <= (NORM_LIMIT as int) * (NORM_LIMIT as int) / SCALE as int + 1,
        -(NORM_LIMIT as int) * (NORM_LIMIT as int) / SCALE as int - 1 <= tdiv(
            k * v.y,
            SCALE as int,
        ) <= (NORM_LIMIT as int) * (NORM_LIMIT as int) / SCALE as int + 1,
        -(NORM_LIMIT as int) * (NORM_LIMIT as int) / SCALE as int - 1 <= tdiv(
            k * v.z,
            SCALE as int,
        ) <= (NORM_LIMIT as int) * (NORM_LIMIT as int) / SCALE as int + 1,
{
    lemma_scale_one(v.x as int, k);
    lemma_scale_one(v.y as int, k);
    lemma_scale_one(v.z as int, k);
}

/// Overflow envelope for one scaled component.
proof fn lemma_scale_one(c: int, k: int)
    requires
        -(NORM_LIMIT as int) <= c <= NORM_LIMIT as int,
        -(NORM_LIMIT as int) <= k <= NORM_LIMIT as int,
    ensures
        -(NORM_LIMIT as int) * (NORM_LIMIT as int) <= k * c <= (NORM_LIMIT as int) * (
        NORM_LIMIT as int),
        -(NORM_LIMIT as int) * (NORM_LIMIT as int) / SCALE as int - 1 <= tdiv(k * c, SCALE as int)
            <= (NORM_LIMIT as int) * (NORM_LIMIT as int) / SCALE as int + 1,
{
    let nl = NORM_LIMIT as int;
    assert(-nl * nl <= k * c <= nl * nl) by (nonlinear_arith)
        requires
            -nl <= k <= nl,
            -nl <= c <= nl,
            nl >= 0,
    ;
    lemma_tdiv_bound(k * c, SCALE as int, nl * nl);
    assert(tdiv(k * c, SCALE as int) * SCALE as int <= nl * nl && -nl * nl <= tdiv(
        k * c,
        SCALE as int,
    ) * SCALE as int);
    assert(-nl * nl / SCALE as int - 1 <= tdiv(k * c, SCALE as int) <= nl * nl / SCALE as int + 1)
        by (nonlinear_arith)
        requires
            tdiv(k * c, SCALE as int) * SCALE as int <= nl * nl,
            -nl * nl <= tdiv(k * c, SCALE as int) * SCALE as int,
            SCALE as int >= 1,
            nl >= 0,
    ;
}

} // verus!
