//! Rays: an origin, a direction and a time sample.  A point along a ray is
//! parameterized by a fixed-point distance `t`: the point at `t` is
//! `origin + (t / SCALE) * direction`, each coordinate truncated toward zero.
use vstd::prelude::*;

use crate::num::{div_trunc, tdiv};
use crate::vector::{axis3, Vec3};
use crate::{COORD_LIMIT, DIR_LIMIT, SCALE};

verus! {

/// Largest time-sample magnitude a ray may carry.
pub const TIME_LIMIT: i64 = 1073741824;

/// Largest ray parameter `point_at` accepts.
pub const T_LIMIT: i128 = 1267650600228229401496703205376;

#[derive(Clone, Copy, Debug, PartialEq, Eq, Structural)]
pub struct Ray {
    pub origin: Vec3,
    pub direction: Vec3,
    pub time: i64,
}

/// Coordinate of the point at parameter `t` along axis `a`.
pub open spec fn point_coord(r: Ray, t: int, a: int) -> int {
    axis3(r.origin, a) + tdiv(t * axis3(r.direction, a), SCALE as int)
}

impl Ray {
    /// Origin and direction within the geometry window.
    pub open spec fn wf(self) -> bool {
        &&& self.origin.bounded(COORD_LIMIT as int)
        &&& self.direction.bounded(DIR_LIMIT as int)
        &&& -TIME_LIMIT <= self.time <= TIME_LIMIT
    }

    /// Every coordinate of the point at `t` stays inside the window.
    pub open spec fn point_fits(self, t: int) -> bool {
        &&& -COORD_LIMIT <= point_coord(self, t, 0) <= COORD_LIMIT as int
        &&& -COORD_LIMIT <= point_coord(self, t, 1) <= COORD_LIMIT as int
        &&& -COORD_LIMIT <= point_coord(self, t, 2) <= COORD_LIMIT as int
    }

    pub fn new(origin: Vec3, direction: Vec3, time: i64) -> (r: Ray)
        ensures
            r == (Ray { origin, direction, time }),
    {
        Ray { origin, direction, time }
    }

    pub fn origin(&self) -> (o: Vec3)
        ensures
            o == self.origin,
    {
        self.origin
    }

    pub fn direction(&self) -> (d: Vec3)
        ensures
            d == self.direction,
    {
        self.direction
    }

    pub fn time(&self) -> (t: i64)
        ensures
            t == self.time,
    {
        self.time
    }

    /// The point at parameter `t`, if it stays inside the geometry window.
    pub fn try_point_at(&self, t: i128) -> (p: Option<Vec3>)
        requires
            self.wf(),
            0 <= t <= T_LIMIT,
        ensures
            match p {
                Some(v) => {
                    &&& self.point_fits(t as int)
                    &&& v.x == point_coord(*self, t as int, 0)
                    &&& v.y == point_coord(*self, t as int, 1)
                    &&& v.z == point_coord(*self, t as int, 2)
                    &&& v.bounded(COORD_LIMIT as int)
                },
                None => !self.point_fits(t as int),
            },
    {
        proof {
            lemma_point_term(t as int, self.direction.x as int);
            lemma_point_term(t as int, self.direction.y as int);
            lemma_point_term(t as int, self.direction.z as int);
        }
        let px = (self.origin.x as i128) + div_trunc(t * (self.direction.x as i128), SCALE as i128);
        let py = (self.origin.y as i128) + div_trunc(t * (self.direction.y as i128), SCALE as i128);
        let pz = (self.origin.z as i128) + div_trunc(t * (self.direction.z as i128), SCALE as i128);
        let lim = COORD_LIMIT as i128;
        if -lim <= px && px <= lim && -lim <= py && py <= lim && -lim <= pz && pz <= lim {
            Some(Vec3 { x: px as i64, y: py as i64, z: pz as i64 })
        } else {
            None
        }
    }

    /// The point at parameter `t`; callers must know it fits the window.
    pub fn point_at(&self, t: i128) -> (p: Vec3)
        requires
            self.wf(),
            0 <= t <= T_LIMIT,
            self.point_fits(t as int),
        ensures
            p.x == point_coord(*self, t as int, 0),
            p.y == point_coord(*self, t as int, 1),
            p.z == point_coord(*self, t as int, 2),
            p.bounded(COORD_LIMIT as int),
    {
        match self.try_point_at(t) {
            Some(p) => p,
            None => Vec3 { x: 0, y: 0, z: 0 },
        }
    }
}

/// Overflow envelope for one coordinate of a ray point.
proof fn lemma_point_term(t: int, d: int)
    requires
        0 <= t <= T_LIMIT as int,
        -DIR_LIMIT <= d <= DIR_LIMIT as int,
    ensures
        -(T_LIMIT as int) * (DIR_LIMIT as int) <= t * d <= (T_LIMIT as int) * (DIR_LIMIT as int),
        (T_LIMIT as int) * (DIR_LIMIT as int) < i128::MAX,
        -(T_LIMIT as int) * (DIR_LIMIT as int) <= tdiv(t * d, SCALE as int) <= (T_LIMIT as int) * (
        DIR_LIMIT as int),
{
    assert(-(T_LIMIT as int) * (DIR_LIMIT as int) <= t * d <= (T_LIMIT as int) * (DIR_LIMIT as int))
        by (nonlinear_arith)
        requires
            0 <= t <= T_LIMIT as int,
            -(DIR_LIMIT as int) <= d <= DIR_LIMIT as int,
    ;
    crate::num::lemma_tdiv_bound(t * d, SCALE as int, (T_LIMIT as int) * (DIR_LIMIT as int));
}

} // verus!
