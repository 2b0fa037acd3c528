//! Axis-aligned bounding boxes with the slab ray test.  The test is exact:
//! each axis bounds the ray parameter between a rational entry and exit
//! (numerators over the direction component as denominator), and the box is
//! hit when the caller's interval and every per-axis interval overlap with
//! nonempty interior.  All rational comparisons are carried out by cross
//! multiplication, so no rounding is involved.
use vstd::prelude::*;

use crate::num::{max64, min64};
use crate::ray::{Ray, T_LIMIT};
use crate::vector::{axis3, Vec3};
use crate::SCALE;

verus! {

/// Largest corner-coordinate magnitude the slab test accepts.
pub const BOX_LIMIT: i64 = 1073741824;

#[derive(Clone, Copy, Debug, PartialEq, Eq, Structural)]
pub struct AABB {
    pub min: Vec3,
    pub max: Vec3,
}

impl AABB {
    /// Both corners within the window the slab test accepts.
    pub open spec fn in_window(self) -> bool {
        &&& self.min.bounded(BOX_LIMIT as int)
        &&& self.max.bounded(BOX_LIMIT as int)
    }

    pub fn new(a: Vec3, b: Vec3) -> (r: AABB)
        ensures
            r == (AABB { min: a, max: b }),
    {
        AABB { min: a, max: b }
    }

    pub fn min(&self) -> (v: Vec3)
        ensures
            v == self.min,
    {
        self.min
    }

    pub fn max(&self) -> (v: Vec3)
        ensures
            v == self.max,
    {
        self.max
    }

    /// True exactly when the ray parameter interval `(tmin, tmax)` meets the
    /// box: the slab test, evaluated without rounding.
    pub fn intersect(&self, ray: &Ray, tmin: i128, tmax: i128) -> (hit: bool)
        requires
            ray.wf(),
            self.in_window(),
            -T_LIMIT <= tmin <= T_LIMIT,
            -T_LIMIT <= tmax <= T_LIMIT,
        ensures
            hit == slab_hit(*self, *ray, tmin as int, tmax as int),
    {
        if !(tmin < tmax) {
            return false;
        }
        if !self.axis_check(ray, 0, tmin, tmax) {
            return false;
        }
        if !self.axis_check(ray, 1, tmin, tmax) {
            return false;
        }
        if !self.axis_check(ray, 2, tmin, tmax) {
            return false;
        }
        let ok = self.pair_check(ray, 0, 1) && self.pair_check(ray, 0, 2) && self.pair_check(
            ray,
            1,
            0,
        ) && self.pair_check(ray, 1, 2) && self.pair_check(ray, 2, 0) && self.pair_check(ray, 2, 1);
        ok
    }

    /// One axis of the slab test against the caller's interval.
    fn axis_check(&self, ray: &Ray, a: u8, tmin: i128, tmax: i128) -> (ok: bool)
        requires
            ray.wf(),
            self.in_window(),
            a < 3,
            -T_LIMIT <= tmin <= T_LIMIT,
            -T_LIMIT <= tmax <= T_LIMIT,
        ensures
            ok == axis_ok(*self, *ray, a as int, tmin as int, tmax as int),
    {
        let o = ray.origin().axis(a);
        let d = ray.direction().axis(a);
        let lo = self.min.axis(a);
        let hi = self.max.axis(a);
        if d == 0 {
            lo <= o && o <= hi
        } else {
            let dn: i128 = if d > 0 {
                d as i128
            } else {
                -(d as i128)
            };
            let en: i128 = if d > 0 {
                (SCALE as i128) * ((lo as i128) - (o as i128))
            } else {
                (SCALE as i128) * ((o as i128) - (hi as i128))
            };
            let ex: i128 = if d > 0 {
                (SCALE as i128) * ((hi as i128) - (o as i128))
            } else {
                (SCALE as i128) * ((o as i128) - (lo as i128))
            };
            proof {
                lemma_cross_bound(tmin as int, dn as int);
                lemma_cross_bound(tmax as int, dn as int);
            }
            en < tmax * dn && tmin * dn < ex && en < ex
        }
    }

    /// Entry of axis `a` against exit of axis `c`.
    fn pair_check(&self, ray: &Ray, a: u8, c: u8) -> (ok: bool)
        requires
            ray.wf(),
            self.in_window(),
            a < 3,
            c < 3,
        ensures
            ok == pair_ok(*self, *ray, a as int, c as int),
    {
        let da = ray.direction().axis(a);
        let dc = ray.direction().axis(c);
        if da == 0 || dc == 0 {
            true
        } else {
            let o_a = ray.origin().axis(a);
            let o_c = ray.origin().axis(c);
            let dna: i128 = if da > 0 {
                da as i128
            } else {
                -(da as i128)
            };
            let dnc: i128 = if dc > 0 {
                dc as i128
            } else {
                -(dc as i128)
            };
            let en_a: i128 = if da > 0 {
                (SCALE as i128) * ((self.min.axis(a) as i128) - (o_a as i128))
            } else {
                (SCALE as i128) * ((o_a as i128) - (self.max.axis(a) as i128))
            };
            let ex_c: i128 = if dc > 0 {
                (SCALE as i128) * ((self.max.axis(c) as i128) - (o_c as i128))
            } else {
                (SCALE as i128) * ((o_c as i128) - (self.min.axis(c) as i128))
            };
            proof {
                lemma_cross_bound(en_a as int, dnc as int);
                lemma_cross_bound(ex_c as int, dna as int);
            }
            en_a * dnc < ex_c * dna
        }
    }
}

/// Entry numerator of axis `a`: the smaller slab crossing, over denominator
/// `den_of`.
pub open spec fn en_num(b: AABB, r: Ray, a: int) -> int {
    if axis3(r.direction, a) > 0 {
        SCALE as int * (axis3(b.min, a) - axis3(r.origin, a))
    } else {
        SCALE as int * (axis3(r.origin, a) - axis3(b.max, a))
    }
}

/// Exit numerator of axis `a`: the larger slab crossing.
pub open spec fn ex_num(b: AABB, r: Ray, a: int) -> int {
    if axis3(r.direction, a) > 0 {
        SCALE as int * (axis3(b.max, a) - axis3(r.origin, a))
    } else {
        SCALE as int * (axis3(r.origin, a) - axis3(b.min, a))
    }
}

/// Positive denominator of axis `a`.
pub open spec fn den_of(r: Ray, a: int) -> int {
    if axis3(r.direction, a) >= 0 {
        axis3(r.direction, a)
    } else {
        -axis3(r.direction, a)
    }
}

/// Axis `a` admits some parameter strictly inside `(tmin, tmax)`; for a zero
/// direction component the axis only demands that the origin lies in the slab.
pub open spec fn axis_ok(b: AABB, r: Ray, a: int, tmin: int, tmax: int) -> bool {
    if axis3(r.direction, a) == 0 {
        axis3(b.min, a) <= axis3(r.origin, a) <= axis3(b.max, a)
    } else {
        &&& en_num(b, r, a) < tmax * den_of(r, a)
        &&& tmin * den_of(r, a) < ex_num(b, r, a)
        &&& en_num(b, r, a) < ex_num(b, r, a)
    }
}

/// The entry of axis `a` lies strictly before the exit of axis `c`.
pub open spec fn pair_ok(b: AABB, r: Ray, a: int, c: int) -> bool {
    axis3(r.direction, a) != 0 && axis3(r.direction, c) != 0 ==> en_num(b, r, a) * den_of(r, c)
        < ex_num(b, r, c) * den_of(r, a)
}

/// The slab test: the latest entry lies strictly before the earliest exit,
/// within the caller's interval.
pub open spec fn slab_hit(b: AABB, r: Ray, tmin: int, tmax: int) -> bool {
    &&& tmin < tmax
    &&& axis_ok(b, r, 0, tmin, tmax)
    &&& axis_ok(b, r, 1, tmin, tmax)
    &&& axis_ok(b, r, 2, tmin, tmax)
    &&& pair_ok(b, r, 0, 1)
    &&& pair_ok(b, r, 0, 2)
    &&& pair_ok(b, r, 1, 0)
    &&& pair_ok(b, r, 1, 2)
    &&& pair_ok(b, r, 2, 0)
    &&& pair_ok(b, r, 2, 1)
}

/// Cross products in the slab comparisons stay inside the machine range.
proof fn lemma_cross_bound(n: int, d: int)
    requires
        -(T_LIMIT as int) <= n <= T_LIMIT as int,
        0 <= d <= crate::DIR_LIMIT as int,
    ensures
        -(T_LIMIT as int) * (crate::DIR_LIMIT as int) <= n * d <= (T_LIMIT as int) * (
        crate::DIR_LIMIT as int),
        (T_LIMIT as int) * (crate::DIR_LIMIT as int) < i128::MAX,
{
    assert(-(T_LIMIT as int) * (crate::DIR_LIMIT as int) <= n * d <= (T_LIMIT as int) * (
    crate::DIR_LIMIT as int)) by (nonlinear_arith)
        requires
            -(T_LIMIT as int) <= n <= T_LIMIT as int,
            0 <= d <= crate::DIR_LIMIT as int,
    ;
}

/// The box whose min corner takes the smaller and whose max corner takes the
/// larger coordinate on every axis.
pub open spec fn surround_spec(a: AABB, b: AABB) -> AABB {
    AABB {
        min: Vec3 {
            x: if a.min.x <= b.min.x { a.min.x } else { b.min.x },
            y: if a.min.y <= b.min.y { a.min.y } else { b.min.y },
            z: if a.min.z <= b.min.z { a.min.z } else { b.min.z },
        },
        max: Vec3 {
            x: if a.max.x >= b.max.x { a.max.x } else { b.max.x },
            y: if a.max.y >= b.max.y { a.max.y } else { b.max.y },
            z: if a.max.z >= b.max.z { a.max.z } else { b.max.z },
        },
    }
}

/// `outer` contains `inner` on every axis.
pub open spec fn contains_box(outer: AABB, inner: AABB) -> bool {
    &&& outer.min.x <= inner.min.x
    &&& outer.min.y <= inner.min.y
    &&& outer.min.z <= inner.min.z
    &&& inner.max.x <= outer.max.x
    &&& inner.max.y <= outer.max.y
    &&& inner.max.z <= outer.max.z
}

/// The smallest box containing both arguments: componentwise min of mins and
/// max of maxes.
pub fn surrounding_box(box0: &AABB, box1: &AABB) -> (r: AABB)
    ensures
        r == surround_spec(*box0, *box1),
        contains_box(r, *box0),
        contains_box(r, *box1),
{
    let small = Vec3::new(
        min64(box0.min.x, box1.min.x),
        min64(box0.min.y, box1.min.y),
        min64(box0.min.z, box1.min.z),
    );
    let big = Vec3::new(
        max64(box0.max.x, box1.max.x),
        max64(box0.max.y, box1.max.y),
        max64(box0.max.z, box1.max.z),
    );
    AABB::new(small, big)
}

/// The surround of two boxes contains both.
pub proof fn lemma_surround_contains(a: AABB, b: AABB)
    ensures
        contains_box(surround_spec(a, b), a),
        contains_box(surround_spec(a, b), b),
{
}

/// Containment of boxes is transitive.
pub proof fn lemma_contains_trans(a: AABB, b: AABB, c: AABB)
    requires
        contains_box(a, b),
        contains_box(b, c),
    ensures
        contains_box(a, c),
{
}

/// Types that carry an axis-aligned bounding box.
pub trait BoundingBox {
    /// The box the type reports.
    spec fn bbox_spec(&self) -> AABB;

    /// What the type asks of itself before its box may be requested.
    spec fn bbox_ok(&self) -> bool;

    fn bounding_box(&self) -> (b: AABB)
        requires
            self.bbox_ok(),
        ensures
            b == self.bbox_spec(),
    ;
}

/// A box within the slab window that contains a smaller box is hit whenever
/// the smaller one is: growing a box never loses a slab hit.
pub proof fn lemma_slab_monotone(outer: AABB, inner: AABB, r: Ray, tmin: int, tmax: int)
    requires
        contains_box(outer, inner),
        slab_hit(inner, r, tmin, tmax),
    ensures
        slab_hit(outer, r, tmin, tmax),
{
    lemma_axis_monotone(outer, inner, r, 0, tmin, tmax);
    lemma_axis_monotone(outer, inner, r, 1, tmin, tmax);
    lemma_axis_monotone(outer, inner, r, 2, tmin, tmax);
    lemma_pair_monotone(outer, inner, r, 0, 1);
    lemma_pair_monotone(outer, inner, r, 0, 2);
    lemma_pair_monotone(outer, inner, r, 1, 0);
    lemma_pair_monotone(outer, inner, r, 1, 2);
    lemma_pair_monotone(outer, inner, r, 2, 0);
    lemma_pair_monotone(outer, inner, r, 2, 1);
}

/// Entries only move earlier and exits later when the box grows.
proof fn lemma_box_growth(outer: AABB, inner: AABB, r: Ray, a: int)
    requires
        contains_box(outer, inner),
        0 <= a < 3,
    ensures
        en_num(outer, r, a) <= en_num(inner, r, a),
        ex_num(inner, r, a) <= ex_num(outer, r, a),
{
}

proof fn lemma_axis_monotone(outer: AABB, inner: AABB, r: Ray, a: int, tmin: int, tmax: int)
    requires
        contains_box(outer, inner),
        0 <= a < 3,
        axis_ok(inner, r, a, tmin, tmax),
    ensures
        axis_ok(outer, r, a, tmin, tmax),
{
    lemma_box_growth(outer, inner, r, a);
}

proof fn lemma_pair_monotone(outer: AABB, inner: AABB, r: Ray, a: int, c: int)
    requires
        contains_box(outer, inner),
        0 <= a < 3,
        0 <= c < 3,
        pair_ok(inner, r, a, c),
    ensures
        pair_ok(outer, r, a, c),
{
    lemma_box_growth(outer, inner, r, a);
    lemma_box_growth(outer, inner, r, c);
    if axis3(r.direction, a) != 0 && axis3(r.direction, c) != 0 {
        assert(en_num(outer, r, a) * den_of(r, c) <= en_num(inner, r, a) * den_of(r, c))
            by (nonlinear_arith)
            requires
                en_num(outer, r, a) <= en_num(inner, r, a),
                den_of(r, c) >= 0,
        ;
        assert(ex_num(inner, r, c) * den_of(r, a) <= ex_num(outer, r, c) * den_of(r, a))
            by (nonlinear_arith)
            requires
                ex_num(inner, r, c) <= ex_num(outer, r, c),
                den_of(r, a) >= 0,
        ;
    }
}

/// Reversing the ray direction and negating (and swapping) the interval
/// bounds leaves the slab test unchanged.
pub proof fn lemma_slab_reversal(b: AABB, r: Ray, rev: Ray, tmin: int, tmax: int)
    requires
        rev.origin == r.origin,
        rev.direction.x == -r.direction.x,
        rev.direction.y == -r.direction.y,
        rev.direction.z == -r.direction.z,
    ensures
        slab_hit(b, r, tmin, tmax) == slab_hit(b, rev, -tmax, -tmin),
{
    lemma_axis_reversal(b, r, rev, 0, tmin, tmax);
    lemma_axis_reversal(b, r, rev, 1, tmin, tmax);
    lemma_axis_reversal(b, r, rev, 2, tmin, tmax);
    lemma_pair_reversal(b, r, rev, 0, 1);
    lemma_pair_reversal(b, r, rev, 0, 2);
    lemma_pair_reversal(b, r, rev, 1, 0);
    lemma_pair_reversal(b, r, rev, 1, 2);
    lemma_pair_reversal(b, r, rev, 2, 0);
    lemma_pair_reversal(b, r, rev, 2, 1);
}

/// Under reversal the entry of an axis becomes the negated exit and the
/// denominator is kept.
proof fn lemma_swap_num(b: AABB, r: Ray, rev: Ray, a: int)
    requires
        0 <= a < 3,
        rev.origin == r.origin,
        rev.direction.x == -r.direction.x,
        rev.direction.y == -r.direction.y,
        rev.direction.z == -r.direction.z,
    ensures
        den_of(rev, a) == den_of(r, a),
        axis3(rev.direction, a) == -axis3(r.direction, a),
        axis3(r.direction, a) != 0 ==> en_num(b, rev, a) == -ex_num(b, r, a),
        axis3(r.direction, a) != 0 ==> ex_num(b, rev, a) == -en_num(b, r, a),
{
}

proof fn lemma_axis_reversal(b: AABB, r: Ray, rev: Ray, a: int, tmin: int, tmax: int)
    requires
        0 <= a < 3,
        rev.origin == r.origin,
        rev.direction.x == -r.direction.x,
        rev.direction.y == -r.direction.y,
        rev.direction.z == -r.direction.z,
    ensures
        axis_ok(b, r, a, tmin, tmax) == axis_ok(b, rev, a, -tmax, -tmin),
{
    lemma_swap_num(b, r, rev, a);
    if axis3(r.direction, a) != 0 {
        assert((-ex_num(b, r, a)) < (-tmin) * den_of(r, a) <==> tmin * den_of(r, a) < ex_num(
            b,
            r,
            a,
        )) by (nonlinear_arith);
        assert((-tmax) * den_of(r, a) < -en_num(b, r, a) <==> en_num(b, r, a) < tmax * den_of(r, a))
            by (nonlinear_arith);
    }
}

proof fn lemma_pair_reversal(b: AABB, r: Ray, rev: Ray, a: int, c: int)
    requires
        0 <= a < 3,
        0 <= c < 3,
        rev.origin == r.origin,
        rev.direction.x == -r.direction.x,
        rev.direction.y == -r.direction.y,
        rev.direction.z == -r.direction.z,
    ensures
        pair_ok(b, rev, a, c) == pair_ok(b, r, c, a),
{
    lemma_swap_num(b, r, rev, a);
    lemma_swap_num(b, r, rev, c);
    if axis3(r.direction, a) != 0 && axis3(r.direction, c) != 0 {
        assert((-ex_num(b, r, a)) * den_of(r, c) < (-en_num(b, r, c)) * den_of(r, a) <==> en_num(
            b,
            r,
            c,
        ) * den_of(r, a) < ex_num(b, r, a) * den_of(r, c)) by (nonlinear_arith);
    }
}

} // verus!
