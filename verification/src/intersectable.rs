//! Ray/primitive intersection.  The hit distance is the fixed-point ray
//! parameter of the nearer quadratic root, computed exactly: the discriminant
//! is an integer, its square root is the floor square root, and the final
//! division truncates toward zero.  A nonpositive value means no hit; a
//! degenerate direction or a negative (for static spheres) or nonpositive
//! (for moving spheres) discriminant yields the sentinel `-SCALE`.
use vstd::prelude::*;

use crate::num::{div_trunc, isqrt, lemma_sqrt_floor, lemma_tdiv_bound, sqrt_floor, tdiv};
use crate::ray::{Ray, T_LIMIT};
use crate::scene::{MovingSphere, SceneItem, Sphere};
use crate::vector::{dot3, lemma_dot_product_bound, Vec3};
use crate::{COORD_LIMIT, DIR_LIMIT, SCALE};

verus! {

/// The record a successful trace returns: the primitive that was hit and the
/// fixed-point distance along the ray.
pub struct Intersection {
    pub intersected: SceneItem,
    pub dist: i128,
}

/// Dot product of `o - c` with `d`, exactly.
pub open spec fn oc_dot_d(o: Vec3, c: Vec3, d: Vec3) -> int {
    (o.x - c.x) * d.x + (o.y - c.y) * d.y + (o.z - c.z) * d.z
}

/// Squared length of `o - c`, exactly.
pub open spec fn oc_dot_oc(o: Vec3, c: Vec3) -> int {
    (o.x - c.x) * (o.x - c.x) + (o.y - c.y) * (o.y - c.y) + (o.z - c.z) * (o.z - c.z)
}

/// Envelope bound on the quadratic's coefficients and root.
pub const QUAD_LIMIT: i128 = 4611686018427387904;

/// Discriminant of the ray/sphere quadratic for a sphere centered at
/// `(cx, cy, cz)`.
pub open spec fn sphere_disc(cx: int, cy: int, cz: int, rad: int, r: Ray) -> int {
    let a = dot3(r.direction, r.direction);
    let b = 2 * ((r.origin.x - cx) * r.direction.x + (r.origin.y - cy) * r.direction.y + (
    r.origin.z - cz) * r.direction.z);
    let q = (r.origin.x - cx) * (r.origin.x - cx) + (r.origin.y - cy) * (r.origin.y - cy) + (
    r.origin.z - cz) * (r.origin.z - cz) - rad * rad;
    b * b - 4 * a * q
}

/// Hit distance of a sphere centered at `(cx, cy, cz)`: the nearer quadratic
/// root at fixed-point scale, or `-SCALE` when the quadratic rejects the ray.
/// A moving sphere (`strict_miss`) also rejects a zero discriminant.
pub open spec fn sphere_hit_coords(cx: int, cy: int, cz: int, rad: int, r: Ray, strict_miss: bool) -> int {
    let a = dot3(r.direction, r.direction);
    let b = 2 * ((r.origin.x - cx) * r.direction.x + (r.origin.y - cy) * r.direction.y + (
    r.origin.z - cz) * r.direction.z);
    let disc = sphere_disc(cx, cy, cz, rad, r);
    if a == 0 {
        -(SCALE as int)
    } else if disc < 0 || (strict_miss && disc == 0) {
        -(SCALE as int)
    } else {
        tdiv(SCALE as int * (-b - sqrt_floor(disc)), 2 * a)
    }
}

/// Types a ray can strike.
pub trait Intersectable {
    /// The exact hit distance the implementation returns.
    spec fn hit_spec(&self, r: Ray) -> int;

    /// What the implementation asks of the ray (beyond well-formedness).
    spec fn hit_ok(&self, r: Ray) -> bool;

    fn intersect(&self, ray: &Ray) -> (d: i128)
        requires
            ray.wf(),
            self.hit_ok(*ray),
        ensures
            d == self.hit_spec(*ray),
            -T_LIMIT <= d <= T_LIMIT,
    ;
}

impl Intersectable for Sphere {
    open spec fn hit_spec(&self, r: Ray) -> int {
        sphere_hit_coords(
            self.center.x as int,
            self.center.y as int,
            self.center.z as int,
            self.radius as int,
            r,
            false,
        )
    }

    open spec fn hit_ok(&self, r: Ray) -> bool {
        self.wf()
    }

    fn intersect(&self, ray: &Ray) -> (d: i128) {
        solve_sphere(&self.center, self.radius, ray, false)
    }
}

impl Intersectable for MovingSphere {
    open spec fn hit_spec(&self, r: Ray) -> int {
        sphere_hit_coords(
            self.center_coord(r.time as int, 0),
            self.center_coord(r.time as int, 1),
            self.center_coord(r.time as int, 2),
            self.radius as int,
            r,
            true,
        )
    }

    open spec fn hit_ok(&self, r: Ray) -> bool {
        self.wf() && self.t0 <= r.time <= self.t1
    }

    fn intersect(&self, ray: &Ray) -> (d: i128) {
        let c = self.center(ray.time());
        solve_sphere(&c, self.radius, ray, true)
    }
}

impl Intersectable for SceneItem {
    open spec fn hit_spec(&self, r: Ray) -> int {
        match *self {
            SceneItem::Sphere(s) => s.hit_spec(r),
            SceneItem::MovingSphere(m) => m.hit_spec(r),
        }
    }

    open spec fn hit_ok(&self, r: Ray) -> bool {
        match *self {
            SceneItem::Sphere(s) => s.hit_ok(r),
            SceneItem::MovingSphere(m) => m.hit_ok(r),
        }
    }

    fn intersect(&self, ray: &Ray) -> (d: i128) {
        match self {
            SceneItem::Sphere(s) => s.intersect(ray),
            SceneItem::MovingSphere(m) => m.intersect(ray),
        }
    }
}

/// Shared quadratic solve for a sphere at a fixed center.
fn solve_sphere(center: &Vec3, radius: i64, ray: &Ray, strict_miss: bool) -> (d: i128)
    requires
        ray.wf(),
        center.bounded(COORD_LIMIT as int),
        0 < radius <= COORD_LIMIT,
    ensures
        d == sphere_hit_coords(
            center.x as int,
            center.y as int,
            center.z as int,
            radius as int,
            *ray,
            strict_miss,
        ),
        -T_LIMIT <= d <= T_LIMIT,
{
    let o = ray.origin();
    let dir = ray.direction();
    let oc = o.sub(center);
    proof {
        crate::vector::lemma_self_dot_nonneg(dir);
        lemma_dot_product_bound(dir, dir, DIR_LIMIT as int);
        lemma_dot_product_bound(oc, dir, 2 * COORD_LIMIT as int);
        lemma_dot_product_bound(oc, oc, 2 * COORD_LIMIT as int);
    }
    let a: i128 = dir.dot(&dir);
    let b: i128 = 2 * oc.dot(&dir);
    proof {
        assert(oc_dot_d(o, *center, dir) == dot3(oc, dir) && oc_dot_oc(o, *center) == dot3(oc, oc))
            by (nonlinear_arith)
            requires
                oc.x == o.x - center.x,
                oc.y == o.y - center.y,
                oc.z == o.z - center.z,
        ;
        assert(0 < (radius as int) * (radius as int) <= (COORD_LIMIT as int) * (COORD_LIMIT as int))
            by (nonlinear_arith)
            requires
                0 < radius <= COORD_LIMIT,
        ;
    }
    let q: i128 = oc.dot(&oc) - (radius as i128) * (radius as i128);
    proof {
        assert(-(QUAD_LIMIT as int) <= b as int <= QUAD_LIMIT as int && 0 <= (b as int) * (
        b as int) <= (QUAD_LIMIT as int) * (QUAD_LIMIT as int) && -((QUAD_LIMIT as int) * (
        QUAD_LIMIT as int)) <= 4 * (a as int) * (q as int) <= (QUAD_LIMIT as int) * (
        QUAD_LIMIT as int) && 4 * ((QUAD_LIMIT as int) * (QUAD_LIMIT as int)) <= i128::MAX)
            by (nonlinear_arith)
            requires
                0 <= a as int,
                a as int <= 3 * (DIR_LIMIT as int) * (DIR_LIMIT as int),
                b as int == 2 * dot3(oc, dir),
                -3 * (2 * COORD_LIMIT as int) * (2 * COORD_LIMIT as int) <= dot3(oc, dir) <= 3 * (2
                    * COORD_LIMIT as int) * (2 * COORD_LIMIT as int),
                q as int == dot3(oc, oc) - (radius as int) * (radius as int),
                -3 * (2 * COORD_LIMIT as int) * (2 * COORD_LIMIT as int) <= dot3(oc, oc) <= 3 * (2
                    * COORD_LIMIT as int) * (2 * COORD_LIMIT as int),
                0 < (radius as int) * (radius as int) <= (COORD_LIMIT as int) * (COORD_LIMIT as int),
                COORD_LIMIT == 268435456i64,
                DIR_LIMIT == 67108864i64,
                QUAD_LIMIT == 4611686018427387904i128,
        ;
    }
    let disc: i128 = b * b - 4 * a * q;
    if a == 0 {
        return -(SCALE as i128);
    }
    if disc < 0 || (strict_miss && disc == 0) {
        return -(SCALE as i128);
    }
    let s = isqrt(disc);
    proof {
        lemma_sqrt_floor(disc as int);
        assert(s as int <= 2 * (QUAD_LIMIT as int)) by (nonlinear_arith)
            requires
                s as int >= 0,
                (s as int) * (s as int) <= disc as int,
                disc as int <= 2 * ((QUAD_LIMIT as int) * (QUAD_LIMIT as int)),
                QUAD_LIMIT as int > 0,
        ;
        assert(-(T_LIMIT as int) <= SCALE as int * (-(b as int) - (s as int)) <= T_LIMIT as int)
            by (nonlinear_arith)
            requires
                -(QUAD_LIMIT as int) <= b as int <= QUAD_LIMIT as int,
                0 <= s as int <= 2 * (QUAD_LIMIT as int),
                SCALE == 65536i64,
                QUAD_LIMIT == 4611686018427387904i128,
                T_LIMIT == 1267650600228229401496703205376i128,
        ;
        lemma_tdiv_bound(SCALE as int * (-(b as int) - (s as int)), 2 * (a as int), T_LIMIT as int);
    }
    let num: i128 = (SCALE as i128) * (-b - s);
    div_trunc(num, 2 * a)
}


/// A ray that passes the center farther than the radius misses: when the
/// squared projection of the center offset onto the direction falls short of
/// what the radius allows — the perpendicular offset exceeds the radius —
/// the discriminant is negative and the sphere reports no hit.
pub proof fn law_sphere_miss(s: Sphere, r: Ray)
    requires
        oc_dot_d(r.origin, s.center, r.direction) * oc_dot_d(r.origin, s.center, r.direction)
            < dot3(r.direction, r.direction) * (oc_dot_oc(r.origin, s.center) - s.radius
            * s.radius),
    ensures
        s.hit_spec(r) == -(SCALE as int),
{
    let od = oc_dot_d(r.origin, s.center, r.direction);
    let a = dot3(r.direction, r.direction);
    let q = oc_dot_oc(r.origin, s.center) - s.radius * s.radius;
    if a != 0 {
        assert((2 * od) * (2 * od) - 4 * a * q < 0) by (nonlinear_arith)
            requires
                od * od < a * q,
        ;
        assert(sphere_disc(
            s.center.x as int,
            s.center.y as int,
            s.center.z as int,
            s.radius as int,
            r,
        ) == (2 * od) * (2 * od) - 4 * a * q);
    }
}

/// A ray aimed straight at a sphere's center from outside hits at the
/// distance from the origin to the surface: with `center - origin = m d`
/// and `|d|^2 = l^2`, the squared distance to the center is `(m l)^2` and
/// the reported hit parameter is exactly `SCALE (m l - radius) / l` — the
/// center distance minus the radius, in units of the direction's length.
pub proof fn law_ray_through_center(s: Sphere, r: Ray, m: int, l: int)
    requires
        s.wf(),
        m >= 1,
        l >= 1,
        s.center.x - r.origin.x == m * r.direction.x,
        s.center.y - r.origin.y == m * r.direction.y,
        s.center.z - r.origin.z == m * r.direction.z,
        dot3(r.direction, r.direction) == l * l,
        m * l > s.radius,
    ensures
        s.hit_spec(r) == tdiv(SCALE as int * (m * l - s.radius), l),
        SCALE as int * (m * l - s.radius) >= l ==> s.hit_spec(r) >= 1,
{
    let d = r.direction;
    let od = oc_dot_d(r.origin, s.center, d);
    let a = dot3(d, d);
    let rad = s.radius as int;
    let q = oc_dot_oc(r.origin, s.center) - rad * rad;
    assert((r.origin.x - s.center.x) * d.x == -(m * (d.x * d.x)) && (r.origin.x - s.center.x) * (
    r.origin.x - s.center.x) == (m * m) * (d.x * d.x)) by (nonlinear_arith)
        requires
            s.center.x - r.origin.x == m * d.x,
    ;
    assert((r.origin.y - s.center.y) * d.y == -(m * (d.y * d.y)) && (r.origin.y - s.center.y) * (
    r.origin.y - s.center.y) == (m * m) * (d.y * d.y)) by (nonlinear_arith)
        requires
            s.center.y - r.origin.y == m * d.y,
    ;
    assert((r.origin.z - s.center.z) * d.z == -(m * (d.z * d.z)) && (r.origin.z - s.center.z) * (
    r.origin.z - s.center.z) == (m * m) * (d.z * d.z)) by (nonlinear_arith)
        requires
            s.center.z - r.origin.z == m * d.z,
    ;
    assert(od == -(m * (l * l)) && oc_dot_oc(r.origin, s.center) == (m * m) * (l * l))
        by (nonlinear_arith)
        requires
            od == -(m * (d.x * d.x)) + -(m * (d.y * d.y)) + -(m * (d.z * d.z)),
            oc_dot_oc(r.origin, s.center) == (m * m) * (d.x * d.x) + (m * m) * (d.y * d.y) + (m
                * m) * (d.z * d.z),
            d.x * d.x + d.y * d.y + d.z * d.z == l * l,
    ;
    let b = 2 * od;
    let disc = sphere_disc(s.center.x as int, s.center.y as int, s.center.z as int, rad, r);
    assert(disc == b * b - 4 * a * q);
    assert(b * b == 4 * ((m * m) * ((l * l) * (l * l)))) by (nonlinear_arith)
        requires
            b == 2 * od,
            od == -(m * (l * l)),
    ;
    assert(4 * a * q == 4 * ((m * m) * ((l * l) * (l * l))) - 4 * ((l * rad) * (l * rad)))
        by (nonlinear_arith)
        requires
            a == l * l,
            q == (m * m) * (l * l) - rad * rad,
    ;
    assert(a >= 1 && 4 * ((l * rad) * (l * rad)) > 0 && 0 <= 2 * (l * rad)) by (nonlinear_arith)
        requires
            a == l * l,
            l >= 1,
            rad >= 1,
    ;
    assert(disc == 4 * ((l * rad) * (l * rad)));
    assert((2 * (l * rad)) * (2 * (l * rad)) <= disc && disc < (2 * (l * rad) + 1) * (2 * (l * rad)
        + 1)) by (nonlinear_arith)
        requires
            disc == 4 * ((l * rad) * (l * rad)),
            l >= 1,
            rad >= 1,
    ;
    crate::num::lemma_sqrt_floor_unique(disc, 2 * (l * rad));
    let x = SCALE as int * (m * l - rad);
    assert(SCALE as int * (-b - 2 * (l * rad)) == (2 * l) * x && 2 * a == (2 * l) * l && x > 0 && 2
        * l > 0) by (nonlinear_arith)
        requires
            b == 2 * od,
            od == -(m * (l * l)),
            a == l * l,
            x == SCALE as int * (m * l - rad),
            m * l > rad,
            l >= 1,
            SCALE == 65536i64,
    ;
    vstd::arithmetic::div_mod::lemma_div_multiples_vanish_quotient(2 * l, x, l);
    assert(tdiv((2 * l) * x, (2 * l) * l) == ((2 * l) * x) / ((2 * l) * l)) by {
        assert((2 * l) * x >= 0) by (nonlinear_arith)
            requires
                x > 0,
                l >= 1,
        ;
    }
    assert(tdiv(x, l) == x / l);
    if x >= l {
        assert(x / l >= 1) by (nonlinear_arith)
            requires
                x >= l,
                l >= 1,
        ;
    }
}

} // verus!
