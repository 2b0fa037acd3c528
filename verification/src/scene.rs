//! Scene primitives and materials: static and linearly-moving spheres, the
//! closed set of surface behaviors, and the scene that owns the primitives
//! together with the hierarchy built over them.
use vstd::prelude::*;

use crate::aabb::{surround_spec, surrounding_box, AABB, BoundingBox};
use crate::color::Color;
use crate::intersectable::{Intersectable, Intersection};
use crate::ray::Ray;
use crate::num::{div_trunc, tdiv};
use crate::bvh::{all_items_wf, boxes_pass, fold_boxes, items_time_ok, min_pos_hit, res_agrees, BVH};
use crate::ray::{TIME_LIMIT, T_LIMIT};
use crate::vector::Vec3;
use crate::{COORD_LIMIT, SCALE};

verus! {

/// The closed set of surface behaviors a material can have.
#[derive(Clone, Copy, Debug, PartialEq, Eq, Structural)]
pub enum Surface {
    Diffuse,
    Reflective { reflectivity: i64 },
    Refractive { index: i64 },
}

impl Surface {
    /// Fuzz within `[0, 1]`; a refraction index within `[1, 16]`.
    pub open spec fn wf(self) -> bool {
        match self {
            Surface::Diffuse => true,
            Surface::Reflective { reflectivity } => 0 <= reflectivity <= SCALE,
            Surface::Refractive { index } => SCALE <= index <= 16 * SCALE,
        }
    }
}

/// A base color, an attenuation factor and a surface behavior.
#[derive(Clone, Copy, Debug, PartialEq, Eq, Structural)]
pub struct Material {
    pub color: Color,
    pub albedo: i64,
    pub surface: Surface,
}

impl Material {
    /// Color channels and albedo within `[0, 1]`.
    pub open spec fn wf(self) -> bool {
        &&& self.color.in_range(SCALE as int)
        &&& 0 <= self.albedo <= SCALE
        &&& self.surface.wf()
    }
}

/// A static sphere.
#[derive(Clone, Copy, Debug, PartialEq, Eq, Structural)]
pub struct Sphere {
    pub center: Vec3,
    pub radius: i64,
    pub material: Material,
}

impl Sphere {
    /// Center inside the geometry window, a positive radius, a well-formed
    /// material.
    pub open spec fn wf(self) -> bool {
        &&& self.center.bounded(COORD_LIMIT as int)
        &&& 0 < self.radius <= COORD_LIMIT
        &&& self.material.wf()
    }

    pub fn new(center: Vec3, radius: i64, material: Material) -> (s: Sphere)
        ensures
            s == (Sphere { center, radius, material }),
    {
        Sphere { center, radius, material }
    }

    pub fn center(&self) -> (c: Vec3)
        ensures
            c == self.center,
    {
        self.center
    }

    pub fn radius(&self) -> (r: i64)
        ensures
            r == self.radius,
    {
        self.radius
    }

    pub fn material(&self) -> (m: Material)
        ensures
            m == self.material,
    {
        self.material
    }
}

impl BoundingBox for Sphere {
    open spec fn bbox_ok(&self) -> bool {
        self.wf()
    }

    open spec fn bbox_spec(&self) -> AABB {
        AABB {
            min: Vec3 {
                x: (self.center.x - self.radius) as i64,
                y: (self.center.y - self.radius) as i64,
                z: (self.center.z - self.radius) as i64,
            },
            max: Vec3 {
                x: (self.center.x + self.radius) as i64,
                y: (self.center.y + self.radius) as i64,
                z: (self.center.z + self.radius) as i64,
            },
        }
    }

    fn bounding_box(&self) -> (b: AABB) {
        let rv = Vec3::new(self.radius, self.radius, self.radius);
        AABB::new(self.center.sub(&rv), self.center.add(&rv))
    }
}

/// A sphere whose center moves linearly from `center0` at time `t0` to
/// `center1` at time `t1`.
#[derive(Clone, Copy, Debug, PartialEq, Eq, Structural)]
pub struct MovingSphere {
    pub center0: Vec3,
    pub center1: Vec3,
    pub t0: i64,
    pub t1: i64,
    pub radius: i64,
    pub material: Material,
}

impl MovingSphere {
    /// Both centers inside the window, a nondegenerate time interval, a
    /// positive radius, a well-formed material.
    pub open spec fn wf(self) -> bool {
        &&& self.center0.bounded(COORD_LIMIT as int)
        &&& self.center1.bounded(COORD_LIMIT as int)
        &&& -TIME_LIMIT <= self.t0 < self.t1 <= TIME_LIMIT
        &&& 0 < self.radius <= COORD_LIMIT
        &&& self.material.wf()
    }

    /// Coordinate of the interpolated center along axis `a`.
    pub open spec fn center_coord(self, time: int, a: int) -> int {
        let c0 = crate::vector::axis3(self.center0, a);
        let c1 = crate::vector::axis3(self.center1, a);
        c0 + tdiv((time - self.t0) * (c1 - c0), self.t1 - self.t0)
    }

    pub fn new(center0: Vec3, center1: Vec3, radius: i64, material: Material, t0: i64, t1: i64) -> (s: MovingSphere)
        ensures
            s == (MovingSphere { center0, center1, t0, t1, radius, material }),
    {
        MovingSphere { center0, center1, t0, t1, radius, material }
    }

    pub fn material(&self) -> (m: Material)
        ensures
            m == self.material,
    {
        self.material
    }

    pub fn radius(&self) -> (r: i64)
        ensures
            r == self.radius,
    {
        self.radius
    }

    /// The center linearly interpolated over `[t0, t1]`, truncating toward
    /// zero; exact at both endpoints.
    pub fn center(&self, time: i64) -> (c: Vec3)
        requires
            self.wf(),
            self.t0 <= time <= self.t1,
        ensures
            c.x == self.center_coord(time as int, 0),
            c.y == self.center_coord(time as int, 1),
            c.z == self.center_coord(time as int, 2),
            c.bounded(COORD_LIMIT as int),
    {
        let dt = self.t1 - self.t0;
        let el = time - self.t0;
        let cx = interp_coord(self.center0.x, self.center1.x, el, dt);
        let cy = interp_coord(self.center0.y, self.center1.y, el, dt);
        let cz = interp_coord(self.center0.z, self.center1.z, el, dt);
        Vec3 { x: cx, y: cy, z: cz }
    }
}

/// One coordinate of the linear interpolation `c0 + el * (c1 - c0) / dt`,
/// truncating toward zero; the result stays between `c0` and `c1`.
fn interp_coord(c0: i64, c1: i64, el: i64, dt: i64) -> (c: i64)
    requires
        -COORD_LIMIT <= c0 <= COORD_LIMIT,
        -COORD_LIMIT <= c1 <= COORD_LIMIT,
        0 < dt <= 2 * TIME_LIMIT,
        0 <= el <= dt,
    ensures
        c == c0 + tdiv(el * ((c1 - c0) as int), dt as int),
        -COORD_LIMIT <= c <= COORD_LIMIT,
{
    proof {
        lemma_interp_window(c0 as int, c1 as int, el as int, dt as int);
    }
    let num: i128 = (el as i128) * ((c1 as i128) - (c0 as i128));
    let q = div_trunc(num, dt as i128);
    (c0 as i128 + q) as i64
}

/// The truncated interpolation never leaves the segment between its
/// endpoints.
proof fn lemma_interp_window(c0: int, c1: int, el: int, dt: int)
    requires
        -(COORD_LIMIT as int) <= c0 <= COORD_LIMIT as int,
        -(COORD_LIMIT as int) <= c1 <= COORD_LIMIT as int,
        0 < dt <= 2 * TIME_LIMIT as int,
        0 <= el <= dt,
    ensures
        -4 * (COORD_LIMIT as int) * (TIME_LIMIT as int) <= el * (c1 - c0) <= 4 * (
        COORD_LIMIT as int) * (TIME_LIMIT as int),
        c1 >= c0 ==> 0 <= tdiv(el * (c1 - c0), dt) <= c1 - c0,
        c1 < c0 ==> c1 - c0 <= tdiv(el * (c1 - c0), dt) <= 0,
        -(COORD_LIMIT as int) <= c0 + tdiv(el * (c1 - c0), dt) <= COORD_LIMIT as int,
{
    let g = c1 - c0;
    assert(-4 * (COORD_LIMIT as int) * (TIME_LIMIT as int) <= el * g <= 4 * (COORD_LIMIT as int) * (
    TIME_LIMIT as int)) by (nonlinear_arith)
        requires
            -2 * (COORD_LIMIT as int) <= g <= 2 * (COORD_LIMIT as int),
            0 <= el <= 2 * TIME_LIMIT as int,
    ;
    if g >= 0 {
        assert(0 <= el * g <= dt * g) by (nonlinear_arith)
            requires
                0 <= el <= dt,
                g >= 0,
        ;
        assert(tdiv(el * g, dt) == el * g / dt);
        assert(0 <= el * g / dt <= g) by (nonlinear_arith)
            requires
                dt > 0,
                0 <= el * g <= dt * g,
        ;
    } else {
        assert(dt * g <= el * g <= 0) by (nonlinear_arith)
            requires
                0 <= el <= dt,
                g < 0,
        ;
        assert(dt * (-g) == -(dt * g)) by (nonlinear_arith);
        assert(0 <= (-(el * g)) / dt <= -g) by (nonlinear_arith)
            requires
                dt > 0,
                0 <= -(el * g) <= dt * (-g),
        ;
        assert(tdiv(el * g, dt) == -((-(el * g)) / dt));
    }
}

impl BoundingBox for MovingSphere {
    open spec fn bbox_ok(&self) -> bool {
        self.wf()
    }

    open spec fn bbox_spec(&self) -> AABB {
        let r = self.radius as int;
        surround_spec(
            AABB {
                min: Vec3 {
                    x: (self.center0.x - r) as i64,
                    y: (self.center0.y - r) as i64,
                    z: (self.center0.z - r) as i64,
                },
                max: Vec3 {
                    x: (self.center0.x + r) as i64,
                    y: (self.center0.y + r) as i64,
                    z: (self.center0.z + r) as i64,
                },
            },
            AABB {
                min: Vec3 {
                    x: (self.center1.x - r) as i64,
                    y: (self.center1.y - r) as i64,
                    z: (self.center1.z - r) as i64,
                },
                max: Vec3 {
                    x: (self.center1.x + r) as i64,
                    y: (self.center1.y + r) as i64,
                    z: (self.center1.z + r) as i64,
                },
            },
        )
    }

    fn bounding_box(&self) -> (b: AABB) {
        let rv = Vec3::new(self.radius, self.radius, self.radius);
        let c_start = self.center(self.t0);
        let c_finish = self.center(self.t1);
        proof {
            lemma_endpoint_exact(*self);
        }
        let start_bb = AABB::new(c_start.sub(&rv), c_start.add(&rv));
        let finish_bb = AABB::new(c_finish.sub(&rv), c_finish.add(&rv));
        surrounding_box(&start_bb, &finish_bb)
    }
}

/// At the interval endpoints the interpolation reproduces the stored centers
/// exactly.
proof fn lemma_endpoint_exact(m: MovingSphere)
    requires
        m.wf(),
    ensures
        m.center_coord(m.t0 as int, 0) == m.center0.x,
        m.center_coord(m.t0 as int, 1) == m.center0.y,
        m.center_coord(m.t0 as int, 2) == m.center0.z,
        m.center_coord(m.t1 as int, 0) == m.center1.x,
        m.center_coord(m.t1 as int, 1) == m.center1.y,
        m.center_coord(m.t1 as int, 2) == m.center1.z,
{
    let dt = m.t1 - m.t0;
    lemma_exact_ratio(m.center1.x - m.center0.x, dt);
    lemma_exact_ratio(m.center1.y - m.center0.y, dt);
    lemma_exact_ratio(m.center1.z - m.center0.z, dt);
}

/// `tdiv(g * dt, dt) == g` and `tdiv(0, dt) == 0`.
proof fn lemma_exact_ratio(g: int, dt: int)
    requires
        dt > 0,
    ensures
        tdiv(dt * g, dt) == g,
        tdiv(0, dt) == 0,
{
    if g >= 0 {
        assert((dt * g) / dt == g) by (nonlinear_arith)
            requires
                dt > 0,
                g >= 0,
        ;
        assert(dt * g >= 0) by (nonlinear_arith)
            requires
                dt > 0,
                g >= 0,
        ;
    } else {
        assert((dt * (-g)) / dt == -g) by (nonlinear_arith)
            requires
                dt > 0,
                g < 0,
        ;
        assert(dt * g < 0 && -(dt * g) == dt * (-g)) by (nonlinear_arith)
            requires
                dt > 0,
                g < 0,
        ;
    }
}

/// The closed set of primitives a scene can hold.
#[derive(Clone, Copy, Debug, PartialEq, Eq, Structural)]
pub enum SceneItem {
    Sphere(Sphere),
    MovingSphere(MovingSphere),
}

impl SceneItem {
    pub open spec fn wf(self) -> bool {
        match self {
            SceneItem::Sphere(s) => s.wf(),
            SceneItem::MovingSphere(m) => m.wf(),
        }
    }

    /// Coordinate of the primitive's center at `time` along axis `a`.
    pub open spec fn center_spec(self, time: int, a: int) -> int {
        match self {
            SceneItem::Sphere(s) => crate::vector::axis3(s.center, a),
            SceneItem::MovingSphere(m) => m.center_coord(time, a),
        }
    }

    /// Whether `time` is admissible for this primitive.
    pub open spec fn time_ok(self, time: int) -> bool {
        match self {
            SceneItem::Sphere(_) => true,
            SceneItem::MovingSphere(m) => m.t0 <= time <= m.t1,
        }
    }

    pub fn material(&self) -> (m: Material)
        ensures
            m == match *self {
                SceneItem::Sphere(s) => s.material,
                SceneItem::MovingSphere(ms) => ms.material,
            },
    {
        match self {
            SceneItem::Sphere(s) => s.material(),
            SceneItem::MovingSphere(ms) => ms.material(),
        }
    }

    pub fn center(&self, time: i64) -> (c: Vec3)
        requires
            self.wf(),
            self.time_ok(time as int),
        ensures
            c.x == self.center_spec(time as int, 0),
            c.y == self.center_spec(time as int, 1),
            c.z == self.center_spec(time as int, 2),
            c.bounded(COORD_LIMIT as int),
    {
        match self {
            SceneItem::Sphere(s) => s.center(),
            SceneItem::MovingSphere(ms) => ms.center(time),
        }
    }
}

impl BoundingBox for SceneItem {
    open spec fn bbox_ok(&self) -> bool {
        self.wf()
    }

    open spec fn bbox_spec(&self) -> AABB {
        match *self {
            SceneItem::Sphere(s) => s.bbox_spec(),
            SceneItem::MovingSphere(m) => m.bbox_spec(),
        }
    }

    fn bounding_box(&self) -> (b: AABB) {
        match self {
            SceneItem::Sphere(s) => s.bounding_box(),
            SceneItem::MovingSphere(m) => m.bounding_box(),
        }
    }
}

/// An item's box stays inside the window the slab test accepts.
pub proof fn lemma_item_box_window(item: SceneItem)
    requires
        item.wf(),
    ensures
        item.bbox_spec().in_window(),
{
}


/// The scene: the primitive collection and the hierarchy built over it.
pub struct Scene {
    pub items: Vec<SceneItem>,
    pub bvh: BVH,
}

impl Scene {
    /// The tree is intact and holds exactly the owned primitives.
    pub open spec fn wf(self) -> bool {
        &&& self.bvh.wf()
        &&& all_items_wf(self.items@)
        &&& all_items_wf(self.bvh.items_seq())
        &&& self.bvh.items_seq().to_multiset() == self.items@.to_multiset()
    }

    /// Every moving primitive admits the time sample.
    pub open spec fn accepts_time(self, time: int) -> bool {
        items_time_ok(self.bvh.items_seq(), time)
    }

    /// Consume the primitive list and build the hierarchy over it.  The
    /// root box is the `surrounding_box` fold over the input items' boxes.
    pub fn new(items: Vec<SceneItem>) -> (s: Scene)
        requires
            items@.len() >= 1,
            all_items_wf(items@),
        ensures
            s.wf(),
            s.items@.to_multiset() == items@.to_multiset(),
            s.bvh.items_seq().to_multiset() == items@.to_multiset(),
            s.bvh.bbox == fold_boxes(items@),
    {
        let mut items = items;
        let scene_bvh = BVH::new(&mut items);
        Scene { items, bvh: scene_bvh }
    }

    /// Closest-hit query over the full positive parameter range: sound
    /// always, and exactly the brute-force closest hit whenever no positive
    /// hit is lost to its own box test.
    pub fn trace(&self, r: &Ray) -> (res: Option<Intersection>)
        requires
            self.wf(),
            r.wf(),
            self.accepts_time(r.time as int),
        ensures
            res matches Some(h) ==> self.bvh.items_seq().contains(h.intersected) && h.dist as int
                == h.intersected.hit_spec(*r) && 0 < h.dist <= T_LIMIT,
            boxes_pass(self.bvh.items_seq(), *r, 0, T_LIMIT as int) ==> res_agrees(
                res,
                min_pos_hit(self.bvh.items_seq(), *r),
            ),
    {
        self.bvh.intersect(r, 0, T_LIMIT)
    }
}

} // verus!
