use raytrace_core::aabb::{surrounding_box, AABB};
use raytrace_core::color::Color;
use raytrace_core::ray::Ray;
use raytrace_core::vector::Vec3;
use raytrace_core::SCALE;

const S: i64 = SCALE;

#[test]
fn vector_componentwise_ops() {
    let a = Vec3::new(S, 2 * S, -3 * S);
    let b = Vec3::new(4 * S, -5 * S, 6 * S);
    assert_eq!(a.add(&b), Vec3::new(5 * S, -3 * S, 3 * S));
    assert_eq!(a.sub(&b), Vec3::new(-3 * S, 7 * S, -9 * S));
    assert_eq!(a.neg(), Vec3::new(-S, -2 * S, 3 * S));
    let d = a.dot(&b);
    assert_eq!(
        d,
        (S as i128) * (4 * S as i128) + (2 * S as i128) * (-5 * S as i128)
            + (-3 * S as i128) * (6 * S as i128)
    );
}

#[test]
fn vector_magnitude_and_normalize() {
    let v = Vec3::new(0, 0, 5 * S);
    assert_eq!(v.magn(), 5 * S);
    assert_eq!(v.normalize(), Vec3::new(0, 0, S));
    let w = Vec3::new(3 * S, 4 * S, 0);
    assert_eq!(w.magn(), 5 * S);
    let u = w.normalize();
    // SCALE * 3S / 5S and SCALE * 4S / 5S, truncated toward zero
    assert_eq!(u, Vec3::new(39321, 52428, 0));
}

#[test]
fn surrounding_box_contains_both_inputs() {
    let a = AABB::new(Vec3::new(-S, 0, 2 * S), Vec3::new(S, 3 * S, 4 * S));
    let b = AABB::new(Vec3::new(-2 * S, S, S), Vec3::new(0, 2 * S, 5 * S));
    let sb = surrounding_box(&a, &b);
    assert_eq!(sb.min(), Vec3::new(-2 * S, 0, S));
    assert_eq!(sb.max(), Vec3::new(S, 3 * S, 5 * S));
    // containment, axis by axis
    for (inner_min, inner_max) in [(a.min(), a.max()), (b.min(), b.max())] {
        assert!(sb.min().x <= inner_min.x && sb.min().y <= inner_min.y && sb.min().z <= inner_min.z);
        assert!(sb.max().x >= inner_max.x && sb.max().y >= inner_max.y && sb.max().z >= inner_max.z);
    }
}

#[test]
fn slab_test_hits_and_misses() {
    let unit = AABB::new(Vec3::new(-S, -S, -S), Vec3::new(S, S, S));
    let through = Ray::new(Vec3::new(0, 0, 5 * S), Vec3::new(0, 0, -S), 0);
    let t_max: i128 = 1 << 60;
    assert!(unit.intersect(&through, 0, t_max));
    let away = Ray::new(Vec3::new(0, 0, 5 * S), Vec3::new(0, 0, S), 0);
    assert!(!unit.intersect(&away, 0, t_max));
    let offset = Ray::new(Vec3::new(0, 3 * S, 5 * S), Vec3::new(0, 0, -S), 0);
    assert!(!unit.intersect(&offset, 0, t_max));
    // a zero direction component with the origin inside that slab
    let parallel = Ray::new(Vec3::new(S / 2, 0, 5 * S), Vec3::new(0, 0, -S), 0);
    assert!(unit.intersect(&parallel, 0, t_max));
    // a zero direction component with the origin outside that slab
    let beside = Ray::new(Vec3::new(2 * S, 0, 5 * S), Vec3::new(0, 0, -S), 0);
    assert!(!unit.intersect(&beside, 0, t_max));
    // empty parameter interval
    assert!(!unit.intersect(&through, t_max, 0));
}

#[test]
fn slab_test_is_stable_under_ray_reversal() {
    let b = AABB::new(Vec3::new(-S, -S, -S), Vec3::new(S, 2 * S, S));
    let cases = [
        (Vec3::new(0, 0, 5 * S), Vec3::new(0, 0, -S)),
        (Vec3::new(0, 3 * S, 5 * S), Vec3::new(0, 0, -S)),
        (Vec3::new(2 * S, 2 * S, 2 * S), Vec3::new(-S, -S, -S)),
        (Vec3::new(0, 0, 5 * S), Vec3::new(0, S, 0)),
        (Vec3::new(0, 0, 0), Vec3::new(S, 0, S)),
    ];
    for (o, d) in cases {
        for (tmin, tmax) in [(0i128, 1i128 << 40), (-(1i128 << 20), 1i128 << 20), (5, 7)] {
            let fwd = Ray::new(o, d, 0);
            let rev = Ray::new(o, d.neg(), 0);
            assert_eq!(b.intersect(&fwd, tmin, tmax), b.intersect(&rev, -tmax, -tmin));
        }
    }
}

#[test]
fn point_along_ray_is_exact() {
    let r = Ray::new(Vec3::new(0, 0, 5 * S), Vec3::new(0, 0, -S), 0);
    assert_eq!(r.point_at(4 * S as i128), Vec3::new(0, 0, S));
    assert_eq!(r.point_at(0), Vec3::new(0, 0, 5 * S));
    let skew = Ray::new(Vec3::new(S, 0, 0), Vec3::new(S, 2 * S, 0), 0);
    assert_eq!(skew.point_at(S as i128 / 2), Vec3::new(S + S / 2, S, 0));
}

#[test]
fn color_arithmetic_is_exact() {
    let half = Color::new(S / 2, S / 2, S / 2);
    let w = Color::white();
    assert_eq!(w.mul(&half), half);
    assert_eq!(half.mul(&half), Color::new(S / 4, S / 4, S / 4));
    assert_eq!(w.scale(S / 4), Color::new(S / 4, S / 4, S / 4));
    assert_eq!(w.add(&half), Color::new(S + S / 2, S + S / 2, S + S / 2));
    assert_eq!(w.add(&half).clamp(), Color::white());
    assert_eq!(Color::new(-5, 3, 2 * S).clamp(), Color::new(0, 3, S));
    assert_eq!(Color::black(), Color::new(0, 0, 0));
    assert_eq!(Color::red(), Color::new(S, 0, 0));
    assert_eq!(Color::green(), Color::new(0, S, 0));
    assert_eq!(Color::blue(), Color::new(0, 0, S));
}
