//! The recursive radiance integrator and the scattering model: mirror
//! reflection, Snell refraction with the Schlick reflectance, and diffuse
//! bounce sampling.  Each scattering computation carries an exact integer
//! contract; the draws that randomize sampling come from the crate's single
//! random source, and every stated property holds for every draw.
use vstd::prelude::*;

use crate::color::Color;
use crate::intersectable::Intersectable;
use crate::num::{div_trunc, isqrt, lemma_sqrt_floor, lemma_tdiv_ratio, sqrt_floor, tdiv};
use crate::ray::Ray;
use crate::rng::random_in;
use crate::scene::{Scene, Surface};
use crate::vector::{
    axis3, dot3, lemma_dot_product_bound, lemma_magn_dominates, lemma_self_dot_nonneg, Vec3,
    NORM_LIMIT,
};
use crate::{DIR_LIMIT, SCALE};

verus! {

/// Depth beyond which a path contributes no energy.
pub const MAX_DEPTH: u8 = 50;

/// Coordinate of `v` scaled to unit length, as `normalize` computes it.
pub open spec fn unit_coord(v: Vec3, a: int) -> int {
    tdiv(SCALE as int * axis3(v, a), sqrt_floor(dot3(v, v)))
}

/// Coordinate of `v` mirrored about the unit normal `n`:
/// `v - 2 (v . n) n`, with the products truncated at the fixed-point scale.
pub open spec fn reflect_coord(v: Vec3, n: Vec3, a: int) -> int {
    axis3(v, a) - tdiv(2 * dot3(v, n) * axis3(n, a), SCALE as int * SCALE as int)
}

/// Cosine (at fixed-point scale) between the unit scaling of `v` and `n`.
pub open spec fn refract_dt(v: Vec3, n: Vec3) -> int {
    tdiv(
        unit_coord(v, 0) * n.x + unit_coord(v, 1) * n.y + unit_coord(v, 2) * n.z,
        SCALE as int,
    )
}

/// Discriminant of Snell refraction, at squared fixed-point scale:
/// `1 - eta^2 (1 - dt^2)`.
pub open spec fn refract_disc(v: Vec3, n: Vec3, eta: int) -> int {
    let dt = refract_dt(v, n);
    SCALE as int * SCALE as int - tdiv(
        eta * eta * (SCALE as int * SCALE as int - dt * dt),
        SCALE as int * SCALE as int,
    )
}

/// Coordinate of the refracted direction `eta (u - n dt) - n sqrt(disc)`.
pub open spec fn refract_coord(v: Vec3, n: Vec3, eta: int, a: int) -> int {
    let dt = refract_dt(v, n);
    tdiv(eta * (unit_coord(v, a) - tdiv(dt * axis3(n, a), SCALE as int)), SCALE as int) - tdiv(
        axis3(n, a) * sqrt_floor(refract_disc(v, n, eta)),
        SCALE as int,
    )
}

/// The Schlick reflectance: `r0 + (1 - r0)(1 - cos)^5` with
/// `r0 = ((1 - n) / (1 + n))^2`, truncated at each fixed-point step.
pub open spec fn schlick_spec(cosine: int, ref_ind: int) -> int {
    let r0a = tdiv(SCALE as int * (SCALE as int - ref_ind), SCALE as int + ref_ind);
    let r0 = tdiv(r0a * r0a, SCALE as int);
    let u = SCALE as int - cosine;
    let u5 = tdiv(
        u * u * u * u * u,
        SCALE as int * SCALE as int * SCALE as int * SCALE as int,
    );
    r0 + tdiv((SCALE as int - r0) * u5, SCALE as int)
}

/// The continuation a dielectric surface picks: the refracted direction when
/// one exists and the draw clears the reflectance threshold, otherwise the
/// reflected one.
pub open spec fn dielectric_choice(
    reflected: Vec3,
    refracted: Option<Vec3>,
    prob: int,
    draw: int,
) -> Vec3 {
    match refracted {
        None => reflected,
        Some(rf) => if draw < prob {
            reflected
        } else {
            rf
        },
    }
}

/// Total internal reflection: when the refraction discriminant is not
/// positive there is no refracted direction, so the chosen continuation is
/// the reflected one — whatever the reflectance and the random draw.
pub proof fn law_total_internal_reflection(
    v: Vec3,
    n: Vec3,
    eta: i64,
    reflected: Vec3,
    prob: int,
    draw: int,
)
    requires
        refract_disc(v, n, eta as int) <= 0,
    ensures
        dielectric_choice(reflected, refract_result(v, n, eta as int), prob, draw) == reflected,
{
}

/// What `refract` returns, at the specification level.
pub open spec fn refract_result(v: Vec3, n: Vec3, eta: int) -> Option<Vec3> {
    if refract_disc(v, n, eta) > 0 {
        Some(
            Vec3 {
                x: refract_coord(v, n, eta, 0) as i64,
                y: refract_coord(v, n, eta, 1) as i64,
                z: refract_coord(v, n, eta, 2) as i64,
            },
        )
    } else {
        None
    }
}

/// Mirror `v` about `n`: `v - 2 (v . n) n`, exactly as stated by
/// `reflect_coord`.
pub fn reflect(v: Vec3, n: Vec3) -> (r: Vec3)
    requires
        v.bounded(NORM_LIMIT as int),
        n.bounded(NORM_LIMIT as int),
    ensures
        r.x == reflect_coord(v, n, 0),
        r.y == reflect_coord(v, n, 1),
        r.z == reflect_coord(v, n, 2),
        v.bounded(2 * SCALE as int) && n.bounded(2 * SCALE as int) ==> r.bounded(50 * SCALE as int),
{
    proof {
        lemma_dot_product_bound(v, n, NORM_LIMIT as int);
    }
    let d: i128 = v.dot(&n);
    proof {
        lemma_reflect_term(dot3(v, n), n.x as int);
        lemma_reflect_term(dot3(v, n), n.y as int);
        lemma_reflect_term(dot3(v, n), n.z as int);
        if v.bounded(2 * SCALE as int) && n.bounded(2 * SCALE as int) {
            lemma_dot_product_bound(v, n, 2 * SCALE as int);
            lemma_reflect_small(dot3(v, n), n.x as int);
            lemma_reflect_small(dot3(v, n), n.y as int);
            lemma_reflect_small(dot3(v, n), n.z as int);
        }
    }
    let s2: i128 = (SCALE as i128) * (SCALE as i128);
    let qx = div_trunc(2 * d * (n.x as i128), s2);
    let qy = div_trunc(2 * d * (n.y as i128), s2);
    let qz = div_trunc(2 * d * (n.z as i128), s2);
    Vec3 {
        x: ((v.x as i128) - qx) as i64,
        y: ((v.y as i128) - qy) as i64,
        z: ((v.z as i128) - qz) as i64,
    }
}

/// Envelope of one reflection term under the general bound.
proof fn lemma_reflect_term(d: int, c: int)
    requires
        -3 * (NORM_LIMIT as int) * (NORM_LIMIT as int) <= d <= 3 * (NORM_LIMIT as int) * (
        NORM_LIMIT as int),
        -(NORM_LIMIT as int) <= c <= NORM_LIMIT as int,
    ensures
        -(i128::MAX as int) < 2 * d * c < i128::MAX as int,
        -2305843009213693952 <= tdiv(2 * d * c, SCALE as int * SCALE as int)
            <= 2305843009213693952,
{
    assert(-(2305843009213693952 * (SCALE as int * SCALE as int)) <= 2 * d * c
        <= 2305843009213693952 * (SCALE as int * SCALE as int) && -(i128::MAX as int) < 2 * d * c
        < i128::MAX as int) by (nonlinear_arith)
        requires
            -3 * (NORM_LIMIT as int) * (NORM_LIMIT as int) <= d <= 3 * (NORM_LIMIT as int) * (
            NORM_LIMIT as int),
            -(NORM_LIMIT as int) <= c <= NORM_LIMIT as int,
            NORM_LIMIT == 1073741824i64,
            SCALE == 65536i64,
    ;
    lemma_tdiv_ratio(2 * d * c, SCALE as int * SCALE as int, 2305843009213693952);
}

/// Envelope of one reflection term for unit-scale inputs.
proof fn lemma_reflect_small(d: int, c: int)
    requires
        -3 * (2 * SCALE as int) * (2 * SCALE as int) <= d <= 3 * (2 * SCALE as int) * (2
            * SCALE as int),
        -2 * (SCALE as int) <= c <= 2 * (SCALE as int),
    ensures
        -(48 * SCALE as int) <= tdiv(2 * d * c, SCALE as int * SCALE as int) <= 48 * SCALE as int,
{
    assert(-(48 * SCALE as int * (SCALE as int * SCALE as int)) <= 2 * d * c <= 48 * SCALE as int
        * (SCALE as int * SCALE as int)) by (nonlinear_arith)
        requires
            -3 * (2 * SCALE as int) * (2 * SCALE as int) <= d <= 3 * (2 * SCALE as int) * (2
                * SCALE as int),
            -2 * (SCALE as int) <= c <= 2 * (SCALE as int),
            SCALE == 65536i64,
    ;
    lemma_tdiv_ratio(2 * d * c, SCALE as int * SCALE as int, 48 * SCALE as int);
}

/// Snell refraction of `v` (scaled to unit length) through the unit normal
/// `n` with relative index `ni_over_nt`: the refracted direction when the
/// discriminant is positive, and nothing — total internal reflection —
/// otherwise.
pub fn refract(v: &Vec3, n: &Vec3, ni_over_nt: i64) -> (res: Option<Vec3>)
    requires
        v.bounded(NORM_LIMIT as int),
        !v.is_zero(),
        n.bounded(2 * SCALE as int),
        0 < ni_over_nt <= 16 * SCALE,
    ensures
        res == refract_result(*v, *n, ni_over_nt as int),
        res matches Some(rf) ==> rf.bounded(DIR_LIMIT as int),
{
    let uv = v.normalize();
    proof {
        lemma_dot_product_bound(uv, *n, 2 * SCALE as int);
        assert(dot3(uv, *n) == unit_coord(*v, 0) * n.x + unit_coord(*v, 1) * n.y + unit_coord(
            *v,
            2,
        ) * n.z);
        assert(-((12 * SCALE as int) * (SCALE as int)) <= dot3(uv, *n) <= (12 * SCALE as int) * (
        SCALE as int)) by (nonlinear_arith)
            requires
                -3 * (2 * SCALE as int) * (2 * SCALE as int) <= dot3(uv, *n) <= 3 * (2
                    * SCALE as int) * (2 * SCALE as int),
        ;
        lemma_tdiv_ratio(dot3(uv, *n), SCALE as int, 12 * SCALE as int);
    }
    let dtn: i128 = uv.dot(n);
    let dt = div_trunc(dtn, SCALE as i128);
    let s2: i128 = (SCALE as i128) * (SCALE as i128);
    proof {
        lemma_refract_disc_window(dt as int, ni_over_nt as int);
    }
    let inner: i128 = s2 - dt * dt;
    let disc: i128 = s2 - div_trunc((ni_over_nt as i128) * (ni_over_nt as i128) * inner, s2);
    if disc > 0 {
        let sq = isqrt(disc);
        proof {
            lemma_sqrt_floor(disc as int);
            assert(sq as int <= 192 * SCALE as int) by (nonlinear_arith)
                requires
                    sq as int >= 0,
                    (sq as int) * (sq as int) <= disc as int,
                    disc as int <= 36609 * (SCALE as int * SCALE as int),
                    SCALE == 65536i64,
            ;
        }
        let rx = refract_component(uv.x, n.x, ni_over_nt, dt, sq);
        let ry = refract_component(uv.y, n.y, ni_over_nt, dt, sq);
        let rz = refract_component(uv.z, n.z, ni_over_nt, dt, sq);
        Some(Vec3 { x: rx, y: ry, z: rz })
    } else {
        None
    }
}

/// One coordinate of the refracted direction.
fn refract_component(u: i64, nc: i64, eta: i64, dt: i128, sq: i128) -> (r: i64)
    requires
        -(SCALE as int) <= u <= SCALE as int,
        -2 * (SCALE as int) <= nc <= 2 * (SCALE as int),
        0 < eta <= 16 * SCALE,
        -12 * (SCALE as int) <= dt <= 12 * (SCALE as int),
        0 <= sq <= 192 * (SCALE as int),
    ensures
        r as int == tdiv(eta * (u - tdiv(dt as int * nc, SCALE as int)), SCALE as int) - tdiv(
            nc as int * sq as int,
            SCALE as int,
        ),
        -(DIR_LIMIT as int) <= r <= DIR_LIMIT as int,
{
    proof {
        lemma_refract_component_window(u as int, nc as int, eta as int, dt as int, sq as int);
    }
    let t0 = div_trunc(dt * (nc as i128), SCALE as i128);
    let t1 = div_trunc((eta as i128) * ((u as i128) - t0), SCALE as i128);
    let t2 = div_trunc((nc as i128) * sq, SCALE as i128);
    (t1 - t2) as i64
}

/// Envelope of one refracted coordinate.
proof fn lemma_refract_component_window(u: int, nc: int, eta: int, dt: int, sq: int)
    requires
        -(SCALE as int) <= u <= SCALE as int,
        -2 * (SCALE as int) <= nc <= 2 * (SCALE as int),
        0 < eta <= 16 * SCALE as int,
        -12 * (SCALE as int) <= dt <= 12 * (SCALE as int),
        0 <= sq <= 192 * (SCALE as int),
    ensures
        -24 * (SCALE as int) <= tdiv(dt * nc, SCALE as int) <= 24 * (SCALE as int),
        -400 * (SCALE as int) <= tdiv(eta * (u - tdiv(dt * nc, SCALE as int)), SCALE as int) <= 400
            * (SCALE as int),
        -384 * (SCALE as int) <= tdiv(nc * sq, SCALE as int) <= 384 * (SCALE as int),
        -(DIR_LIMIT as int) <= tdiv(eta * (u - tdiv(dt * nc, SCALE as int)), SCALE as int) - tdiv(
            nc * sq,
            SCALE as int,
        ) <= DIR_LIMIT as int,
{
    assert(-((24 * SCALE as int) * (SCALE as int)) <= dt * nc <= (24 * SCALE as int) * (
    SCALE as int)) by (nonlinear_arith)
        requires
            -2 * (SCALE as int) <= nc <= 2 * (SCALE as int),
            -12 * (SCALE as int) <= dt <= 12 * (SCALE as int),
    ;
    lemma_tdiv_ratio(dt * nc, SCALE as int, 24 * SCALE as int);
    let mid = u - tdiv(dt * nc, SCALE as int);
    assert(-((400 * SCALE as int) * (SCALE as int)) <= eta * mid <= (400 * SCALE as int) * (
    SCALE as int)) by (nonlinear_arith)
        requires
            0 < eta <= 16 * SCALE as int,
            -25 * (SCALE as int) <= mid <= 25 * (SCALE as int),
    ;
    lemma_tdiv_ratio(eta * mid, SCALE as int, 400 * SCALE as int);
    assert(-((384 * SCALE as int) * (SCALE as int)) <= nc * sq <= (384 * SCALE as int) * (
    SCALE as int)) by (nonlinear_arith)
        requires
            -2 * (SCALE as int) <= nc <= 2 * (SCALE as int),
            0 <= sq <= 192 * (SCALE as int),
    ;
    lemma_tdiv_ratio(nc * sq, SCALE as int, 384 * SCALE as int);
    assert(784 * (SCALE as int) <= DIR_LIMIT as int) by (nonlinear_arith)
        requires
            SCALE == 65536i64,
            DIR_LIMIT == 67108864i64,
    ;
}

/// Envelope of the refraction discriminant.
proof fn lemma_refract_disc_window(dt: int, eta: int)
    requires
        -12 * (SCALE as int) <= dt <= 12 * (SCALE as int),
        0 < eta <= 16 * SCALE as int,
    ensures
        0 <= dt * dt <= 618475290624,
        0 <= eta * eta <= 1099511627776,
        -(i128::MAX as int) < (SCALE as int * SCALE as int) - dt * dt < i128::MAX as int,
        -(i128::MAX as int) < eta * eta * ((SCALE as int * SCALE as int) - dt * dt)
            < i128::MAX as int,
        -(36609 * (SCALE as int * SCALE as int)) <= SCALE as int * SCALE as int - tdiv(
            eta * eta * ((SCALE as int * SCALE as int) - dt * dt),
            SCALE as int * SCALE as int,
        ) <= 36609 * (SCALE as int * SCALE as int),
        36609 * (SCALE as int * SCALE as int) < i128::MAX as int / 2,
{
    let s2 = SCALE as int * SCALE as int;
    assert(0 <= dt * dt <= 618475290624 && 0 <= eta * eta <= 1099511627776) by (nonlinear_arith)
        requires
            -12 * (SCALE as int) <= dt <= 12 * (SCALE as int),
            0 < eta <= 16 * SCALE as int,
            SCALE == 65536i64,
    ;
    let x = s2 - dt * dt;
    assert(-(143 * s2) <= x <= s2) by (nonlinear_arith)
        requires
            0 <= dt * dt <= 618475290624,
            x == s2 - dt * dt,
            s2 == SCALE as int * SCALE as int,
            SCALE == 65536i64,
    ;
    let m = eta * eta * x;
    assert(-((36608 * s2) * s2) <= m <= (36608 * s2) * s2 && -(i128::MAX as int) < m
        < i128::MAX as int && -(i128::MAX as int) < x < i128::MAX as int) by (nonlinear_arith)
        requires
            -(143 * s2) <= x <= s2,
            0 <= eta * eta <= 1099511627776,
            m == eta * eta * x,
            s2 == SCALE as int * SCALE as int,
            SCALE == 65536i64,
    ;
    lemma_tdiv_ratio(m, s2, 36608 * s2);
    assert(36609 * s2 < i128::MAX as int / 2) by (nonlinear_arith)
        requires
            s2 == SCALE as int * SCALE as int,
            SCALE == 65536i64,
    ;
}

/// The Schlick reflectance at fixed-point scale, truncated exactly as
/// `schlick_spec` states.
pub fn schlick(cosine: i64, ref_ind: i64) -> (r: i64)
    requires
        -128 * SCALE <= cosine <= 128 * SCALE,
        SCALE <= ref_ind <= 16 * SCALE,
    ensures
        r as int == schlick_spec(cosine as int, ref_ind as int),
{
    proof {
        lemma_schlick_window(cosine as int, ref_ind as int);
    }
    let r0a = div_trunc(
        (SCALE as i128) * ((SCALE as i128) - (ref_ind as i128)),
        (SCALE as i128) + (ref_ind as i128),
    );
    let r0 = div_trunc(r0a * r0a, SCALE as i128);
    let u: i128 = (SCALE as i128) - (cosine as i128);
    let s4: i128 = (SCALE as i128) * (SCALE as i128) * (SCALE as i128) * (SCALE as i128);
    let u5 = div_trunc(u * u * u * u * u, s4);
    let tail = div_trunc(((SCALE as i128) - r0) * u5, SCALE as i128);
    (r0 + tail) as i64
}

/// Envelope of the Schlick computation.
proof fn lemma_schlick_window(cosine: int, ref_ind: int)
    requires
        -128 * SCALE as int <= cosine <= 128 * SCALE as int,
        SCALE as int <= ref_ind <= 16 * SCALE as int,
    ensures
        -(SCALE as int) <= tdiv(
            SCALE as int * (SCALE as int - ref_ind),
            SCALE as int + ref_ind,
        ) <= 0,
        0 <= tdiv(
            tdiv(SCALE as int * (SCALE as int - ref_ind), SCALE as int + ref_ind) * tdiv(
                SCALE as int * (SCALE as int - ref_ind),
                SCALE as int + ref_ind,
            ),
            SCALE as int,
        ) <= SCALE as int,
        ({
            let u = SCALE as int - cosine;
            &&& 0 <= u * u < i128::MAX as int
            &&& -(i128::MAX as int) < u * u * u < i128::MAX as int
            &&& 0 <= u * u * u * u < i128::MAX as int
            &&& -(i128::MAX as int) < u * u * u * u * u < i128::MAX as int
        }),
        ({
            let u = SCALE as int - cosine;
            let s4 = SCALE as int * SCALE as int * SCALE as int * SCALE as int;
            -2341145912868864 <= tdiv(u * u * u * u * u, s4) <= 2341145912868864
        }),
        ({
            let u = SCALE as int - cosine;
            let s4 = SCALE as int * SCALE as int * SCALE as int * SCALE as int;
            let r0a = tdiv(SCALE as int * (SCALE as int - ref_ind), SCALE as int + ref_ind);
            let r0 = tdiv(r0a * r0a, SCALE as int);
            let u5 = tdiv(u * u * u * u * u, s4);
            &&& -(i128::MAX as int) < (SCALE as int - r0) * u5 < i128::MAX as int
            &&& -2341145912868864 <= tdiv((SCALE as int - r0) * u5, SCALE as int) <= 2341145912868864
            &&& i64::MIN as int <= r0 + tdiv((SCALE as int - r0) * u5, SCALE as int)
                <= i64::MAX as int
        }),
{
    let s = SCALE as int;
    assert(-(s * (s + ref_ind)) <= s * (s - ref_ind) && s * (s - ref_ind) <= 0) by (nonlinear_arith)
        requires
            s == 65536,
            s <= ref_ind <= 16 * s,
    ;
    lemma_tdiv_ratio(s * (s - ref_ind), s + ref_ind, s);
    lemma_tdiv_sign(s * (s - ref_ind), s + ref_ind);
    let r0a = tdiv(s * (s - ref_ind), s + ref_ind);
    assert(0 <= r0a * r0a && r0a * r0a <= s * s) by (nonlinear_arith)
        requires
            -s <= r0a <= 0,
    ;
    lemma_tdiv_ratio(r0a * r0a, s, s);
    lemma_tdiv_sign_pos(r0a * r0a, s);
    let u = s - cosine;
    let k5: int = 2341145912868864;
    let s4 = s * s * s * s;
    assert(0 <= u * u < i128::MAX as int && -(i128::MAX as int) < u * u * u < i128::MAX as int && 0
        <= u * u * u * u < i128::MAX as int && -(i128::MAX as int) < u * u * u * u * u
        < i128::MAX as int && -(k5 * s4) <= u * u * u * u * u && u * u * u * u * u <= k5 * s4)
        by (nonlinear_arith)
        requires
            -128 * s <= cosine <= 128 * s,
            u == s - cosine,
            s == 65536,
            s4 == s * s * s * s,
            k5 == 2341145912868864,
    ;
    lemma_tdiv_ratio(u * u * u * u * u, s4, k5);
    let r0 = tdiv(r0a * r0a, s);
    let u5 = tdiv(u * u * u * u * u, s4);
    assert(-(k5 * s) <= (s - r0) * u5 && (s - r0) * u5 <= k5 * s && -(i128::MAX as int) < (s - r0)
        * u5 < i128::MAX as int) by (nonlinear_arith)
        requires
            0 <= r0 <= s,
            -k5 <= u5 <= k5,
            s == 65536,
            k5 == 2341145912868864,
    ;
    lemma_tdiv_ratio((s - r0) * u5, s, k5);
    assert(i64::MIN as int <= r0 + tdiv((s - r0) * u5, s) <= i64::MAX as int) by (nonlinear_arith)
        requires
            0 <= r0 <= s,
            -k5 <= tdiv((s - r0) * u5, s) <= k5,
            s == 65536,
            k5 == 2341145912868864,
    ;
}

/// A nonpositive dividend has a nonpositive truncated quotient.
proof fn lemma_tdiv_sign(a: int, b: int)
    requires
        b > 0,
        a <= 0,
    ensures
        tdiv(a, b) <= 0,
{
    if a < 0 {
        assert((-a) / b >= 0) by (nonlinear_arith)
            requires
                b > 0,
                a < 0,
        ;
    } else {
        assert(0int / b == 0) by (nonlinear_arith)
            requires
                b > 0,
        ;
    }
}

/// A nonnegative dividend has a nonnegative truncated quotient.
proof fn lemma_tdiv_sign_pos(a: int, b: int)
    requires
        b > 0,
        a >= 0,
    ensures
        tdiv(a, b) >= 0,
{
    assert(a / b >= 0) by (nonlinear_arith)
        requires
            b > 0,
            a >= 0,
    ;
}

/// A point of the cube `[0, 1)^3` inside the unit ball, drawn by rejection:
/// components are redrawn until the squared length falls below one.  The
/// loop carries an astronomically large draw budget only so that its
/// termination can be stated; a run that exhausted it would end at the cube
/// corner nearest the origin, which also lies inside the ball.
pub fn random_unit_sphere() -> (p: Vec3)
    ensures
        0 <= p.x < SCALE,
        0 <= p.y < SCALE,
        0 <= p.z < SCALE,
        dot3(p, p) < SCALE as int * SCALE as int,
{
    let mut fuel: u64 = 18446744073709551615u64;
    while fuel > 0
        invariant
            true,
        decreases fuel,
    {
        let x = random_in(0, SCALE);
        let y = random_in(0, SCALE);
        let z = random_in(0, SCALE);
        let p = Vec3 { x, y, z };
        let d = p.dot(&p);
        if d < (SCALE as i128) * (SCALE as i128) {
            return p;
        }
        fuel = fuel - 1;
    }
    Vec3 { x: 0, y: 0, z: 0 }
}

/// The continuation a dielectric surface picks; see `dielectric_choice`.
pub fn dielectric_direction(reflected: Vec3, refracted: Option<Vec3>, prob: i64, draw: i64) -> (dir: Vec3)
    ensures
        dir == dielectric_choice(reflected, refracted, prob as int, draw as int),
        refracted is None ==> dir == reflected,
{
    match refracted {
        None => reflected,
        Some(rf) => if draw < prob {
            reflected
        } else {
            rf
        },
    }
}

/// Height parameter of the sky blend: half of one more than the unit
/// direction's vertical component.
pub open spec fn sky_t(r: Ray) -> int {
    tdiv(unit_coord(r.direction, 1) + SCALE as int, 2)
}

/// One channel of the sky blend: white toward `base` by `t`.
pub open spec fn sky_channel(t: int, base: int) -> int {
    tdiv((SCALE as int - t) * SCALE as int + t * base, SCALE as int)
}

/// The sky gradient for rays that escape the scene: white blended toward
/// sky blue by the unit direction's height.  A zero direction is degenerate
/// and yields black.
pub fn sky_color(ray: &Ray) -> (c: Color)
    requires
        ray.wf(),
    ensures
        ray.direction.is_zero() ==> c == (Color { r: 0, g: 0, b: 0 }),
        !ray.direction.is_zero() ==> {
            &&& c.r == sky_channel(sky_t(*ray), SCALE as int / 2)
            &&& c.g == sky_channel(sky_t(*ray), 45875)
            &&& c.b == sky_channel(sky_t(*ray), SCALE as int)
        },
        c.in_range(SCALE as int),
{
    let d = ray.direction();
    if d.x == 0 && d.y == 0 && d.z == 0 {
        return Color::black();
    }
    let unit = d.normalize();
    let t = div_trunc((unit.y as i128) + (SCALE as i128), 2) as i64;
    proof {
        lemma_sky_channel(t as int, SCALE as int / 2);
        lemma_sky_channel(t as int, 45875);
        lemma_sky_channel(t as int, SCALE as int);
    }
    let s = SCALE as i128;
    let ti = t as i128;
    let r = div_trunc((s - ti) * s + ti * (s / 2), s) as i64;
    let g = div_trunc((s - ti) * s + ti * 45875, s) as i64;
    let b = div_trunc((s - ti) * s + ti * s, s) as i64;
    Color { r, g, b }
}

/// A blend of unit-range endpoints stays in unit range.
proof fn lemma_sky_channel(t: int, base: int)
    requires
        0 <= t <= SCALE as int,
        0 <= base <= SCALE as int,
    ensures
        0 <= (SCALE as int - t) * SCALE as int + t * base <= SCALE as int * SCALE as int,
        0 <= tdiv((SCALE as int - t) * SCALE as int + t * base, SCALE as int) <= SCALE as int,
{
    let s = SCALE as int;
    assert(0 <= (s - t) * s + t * base <= s * s) by (nonlinear_arith)
        requires
            0 <= t <= s,
            0 <= base <= s,
    ;
    lemma_tdiv_ratio((s - t) * s + t * base, s, s);
    lemma_tdiv_sign_pos((s - t) * s + t * base, s);
}


/// A scene primitive returned by a trace is well-formed and admits the
/// ray's time sample.
proof fn lemma_traced_item(s: Seq<crate::scene::SceneItem>, it: crate::scene::SceneItem, time: int)
    requires
        crate::bvh::all_items_wf(s),
        crate::bvh::items_time_ok(s, time),
        s.contains(it),
    ensures
        it.wf(),
        it.time_ok(time),
{
    let i = choose|i: int| 0 <= i < s.len() && s[i] == it;
    assert(s[i].wf());
    assert(s[i].time_ok(time));
}

/// Componentwise bound of a dot product through the magnitude: each
/// component of `v` is dominated by `m`, so the dot with a unit-window `n`
/// is at most `3 m SCALE` in magnitude.
proof fn lemma_dot_magn_bound(v: Vec3, n: Vec3, m: int)
    requires
        m >= v.x,
        m >= -v.x,
        m >= v.y,
        m >= -v.y,
        m >= v.z,
        m >= -v.z,
        m >= 0,
        n.bounded(SCALE as int),
    ensures
        -(3 * SCALE as int) * m <= dot3(v, n) <= (3 * SCALE as int) * m,
{
    assert(-(3 * SCALE as int) * m <= v.x * n.x + v.y * n.y + v.z * n.z <= (3 * SCALE as int) * m)
        by (nonlinear_arith)
        requires
            -m <= v.x <= m,
            -m <= v.y <= m,
            -m <= v.z <= m,
            -(SCALE as int) <= n.x <= SCALE as int,
            -(SCALE as int) <= n.y <= SCALE as int,
            -(SCALE as int) <= n.z <= SCALE as int,
            m >= 0,
    ;
}

/// The recursive radiance estimate for one ray.  Beyond the depth bound the
/// path is cut off and contributes exact black; every returned channel lies
/// in the unit range, and a ray that escapes the scene is shaded with the
/// sky gradient.  Degenerate geometry — a hit point outside the coordinate
/// window, a zero direction, or a hit exactly at a primitive's center —
/// ends the path with black.
///
/// A diffuse bounce continues from the hit point; the reflective and
/// refractive branches continue from the primitive's center, a knowingly
/// coarse scatter origin kept consistently across both branches.
pub fn get_color(scene: &Scene, ray: &Ray, depth: u8) -> (c: Color)
    requires
        scene.wf(),
        ray.wf(),
        scene.accepts_time(ray.time as int),
    ensures
        depth > MAX_DEPTH ==> c == (Color { r: 0, g: 0, b: 0 }),
        c.in_range(SCALE as int),
        depth <= MAX_DEPTH && !ray.direction.is_zero() && crate::bvh::boxes_pass(
            scene.bvh.items_seq(),
            *ray,
            0,
            crate::ray::T_LIMIT as int,
        ) && crate::bvh::min_pos_hit(scene.bvh.items_seq(), *ray) is None ==> c.r == sky_channel(
            sky_t(*ray),
            SCALE as int / 2,
        ) && c.g == sky_channel(sky_t(*ray), 45875) && c.b == sky_channel(
            sky_t(*ray),
            SCALE as int,
        ),
    decreases 51 - depth as int,
{
    if depth > MAX_DEPTH {
        return Color::black();
    }
    match scene.trace(ray) {
        Some(intersection) => {
            proof {
                lemma_traced_item(
                    scene.bvh.items_seq(),
                    intersection.intersected,
                    ray.time as int,
                );
            }
            let material = intersection.intersected.material();
            let p = match ray.try_point_at(intersection.dist) {
                Some(p) => p,
                None => {
                    return Color::black();
                },
            };
            let center = intersection.intersected.center(ray.time());
            let pc = p.sub(&center);
            if pc.x == 0 && pc.y == 0 && pc.z == 0 {
                return Color::black();
            }
            let normal = pc.normalize();
            match material.surface {
                Surface::Diffuse => {
                    let rand_pt = random_unit_sphere();
                    let dir = normal.add(&rand_pt);
                    let scattered = Ray::new(p, dir, ray.time());
                    let rec = get_color(scene, &scattered, depth + 1);
                    material.color.scale(material.albedo).mul(&rec)
                },
                Surface::Reflective { reflectivity } => {
                    let v = ray.direction();
                    if v.x == 0 && v.y == 0 && v.z == 0 {
                        return Color::black();
                    }
                    let vu = v.normalize();
                    let reflected = reflect(vu, normal);
                    let rand_pt = random_unit_sphere();
                    let fuzz = rand_pt.scale_fp(reflectivity);
                    proof {
                        lemma_fuzz_window(rand_pt, reflectivity as int);
                    }
                    let dir = reflected.add(&fuzz);
                    let scattered = Ray::new(center, dir, ray.time());
                    get_color(scene, &scattered, depth + 1).scale(material.albedo)
                },
                Surface::Refractive { index } => {
                    let v = ray.direction();
                    if v.x == 0 && v.y == 0 && v.z == 0 {
                        return Color::black();
                    }
                    let vu = v.normalize();
                    let reflected = reflect(vu, normal);
                    proof {
                        lemma_magn_dominates(v);
                        lemma_self_dot_nonneg(v);
                        lemma_dot_product_bound(v, v, DIR_LIMIT as int);
                        lemma_sqrt_floor(dot3(v, v));
                        assert(sqrt_floor(dot3(v, v)) <= 4611686018427387904) by (nonlinear_arith)
                            requires
                                sqrt_floor(dot3(v, v)) >= 0,
                                sqrt_floor(dot3(v, v)) * sqrt_floor(dot3(v, v)) <= dot3(v, v),
                                dot3(v, v) <= 3 * (DIR_LIMIT as int) * (DIR_LIMIT as int),
                                DIR_LIMIT == 67108864i64,
                        ;
                        lemma_dot_magn_bound(v, normal, sqrt_floor(dot3(v, v)));
                        lemma_cosine_window(dot3(v, normal), sqrt_floor(dot3(v, v)), index as int);
                    }
                    let d_dot_n: i128 = v.dot(&normal);
                    let m = v.magn();
                    let outward_normal: Vec3;
                    let ni_over_nt: i64;
                    let cosine: i64;
                    if d_dot_n > 0 {
                        outward_normal = normal.neg();
                        ni_over_nt = index;
                        cosine = div_trunc(
                            (index as i128) * d_dot_n,
                            (SCALE as i128) * (m as i128),
                        ) as i64;
                    } else {
                        outward_normal = normal;
                        proof {
                            lemma_inverse_index(index as int);
                        }
                        ni_over_nt = div_trunc(
                            (SCALE as i128) * (SCALE as i128),
                            index as i128,
                        ) as i64;
                        cosine = -(div_trunc(d_dot_n, m as i128) as i64);
                    }
                    match refract(&v, &outward_normal, ni_over_nt) {
                        Some(refracted) => {
                            let prob = schlick(cosine, index);
                            let draw = random_in(0, SCALE);
                            let dir = dielectric_direction(
                                reflected,
                                Some(refracted),
                                prob,
                                draw,
                            );
                            let scattered = Ray::new(center, dir, ray.time());
                            get_color(scene, &scattered, depth + 1)
                        },
                        None => {
                            let dir = dielectric_direction(reflected, None, 0, 0);
                            let scattered = Ray::new(center, dir, ray.time());
                            get_color(scene, &scattered, depth + 1)
                        },
                    }
                },
            }
        },
        None => sky_color(ray),
    }
}

/// The fuzz perturbation stays within one unit.
proof fn lemma_fuzz_window(p: Vec3, k: int)
    requires
        0 <= p.x < SCALE as int,
        0 <= p.y < SCALE as int,
        0 <= p.z < SCALE as int,
        0 <= k <= SCALE as int,
    ensures
        -(SCALE as int) <= tdiv(k * p.x, SCALE as int) <= SCALE as int,
        -(SCALE as int) <= tdiv(k * p.y, SCALE as int) <= SCALE as int,
        -(SCALE as int) <= tdiv(k * p.z, SCALE as int) <= SCALE as int,
{
    assert(-((SCALE as int) * (SCALE as int)) <= k * p.x <= (SCALE as int) * (SCALE as int) && -((
    SCALE as int) * (SCALE as int)) <= k * p.y <= (SCALE as int) * (SCALE as int) && -((
    SCALE as int) * (SCALE as int)) <= k * p.z <= (SCALE as int) * (SCALE as int))
        by (nonlinear_arith)
        requires
            0 <= p.x < SCALE as int,
            0 <= p.y < SCALE as int,
            0 <= p.z < SCALE as int,
            0 <= k <= SCALE as int,
    ;
    lemma_tdiv_ratio(k * p.x, SCALE as int, SCALE as int);
    lemma_tdiv_ratio(k * p.y, SCALE as int, SCALE as int);
    lemma_tdiv_ratio(k * p.z, SCALE as int, SCALE as int);
}

/// Envelope of the dielectric cosine in both branches.
proof fn lemma_cosine_window(d: int, m: int, index: int)
    requires
        m >= 1,
        m <= 4611686018427387904,
        -(3 * SCALE as int) * m <= d <= (3 * SCALE as int) * m,
        SCALE as int <= index <= 16 * SCALE as int,
    ensures
        -(i128::MAX as int) < index * d < i128::MAX as int,
        0 < SCALE as int * m < i128::MAX as int,
        -128 * SCALE as int <= tdiv(index * d, SCALE as int * m) <= 128 * SCALE as int,
        -128 * SCALE as int <= -tdiv(d, m) <= 128 * SCALE as int,
        (i64::MIN as int) < tdiv(index * d, SCALE as int * m) <= i64::MAX as int,
        (i64::MIN as int) < tdiv(d, m) <= i64::MAX as int,
{
    assert(-((48 * SCALE as int) * (SCALE as int * m)) <= index * d <= (48 * SCALE as int) * (
    SCALE as int * m) && -(i128::MAX as int) < index * d < i128::MAX as int && 0 < SCALE as int * m
        < i128::MAX as int) by (nonlinear_arith)
        requires
            m >= 1,
            m <= 4611686018427387904,
            -(3 * SCALE as int) * m <= d <= (3 * SCALE as int) * m,
            SCALE as int <= index <= 16 * SCALE as int,
            SCALE == 65536i64,
    ;
    lemma_tdiv_ratio(index * d, SCALE as int * m, 48 * SCALE as int);
    assert(-((3 * SCALE as int) * m) <= d && d <= (3 * SCALE as int) * m) by (nonlinear_arith)
        requires
            -(3 * SCALE as int) * m <= d <= (3 * SCALE as int) * m,
    ;
    lemma_tdiv_ratio(d, m, 3 * SCALE as int);
}

/// The reciprocal of an in-range index is positive and at most one.
proof fn lemma_inverse_index(index: int)
    requires
        SCALE as int <= index <= 16 * SCALE as int,
    ensures
        1 <= tdiv(SCALE as int * SCALE as int, index) <= 16 * SCALE as int,
        0 < index < i128::MAX as int,
{
    assert(1 * index <= SCALE as int * SCALE as int && SCALE as int * SCALE as int
        <= (16 * SCALE as int) * index) by (nonlinear_arith)
        requires
            SCALE as int <= index <= 16 * SCALE as int,
            SCALE == 65536i64,
    ;
    lemma_tdiv_ratio(SCALE as int * SCALE as int, index, 16 * SCALE as int);
    assert(tdiv(SCALE as int * SCALE as int, index) >= 1) by {
        assert((SCALE as int * SCALE as int) / index >= 1) by (nonlinear_arith)
            requires
                0 < index,
                index <= SCALE as int * SCALE as int,
        ;
    }
    assert(index < i128::MAX as int) by (nonlinear_arith)
        requires
            index <= 16 * SCALE as int,
            SCALE == 65536i64,
    ;
}

} // verus!
