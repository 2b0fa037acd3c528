use raytrace_core::aabb::{surrounding_box, BoundingBox, AABB};
use raytrace_core::intersectable::Intersectable;
use raytrace_core::ray::Ray;
use raytrace_core::scene::{Material, MovingSphere, Scene, SceneItem, Sphere, Surface};
use raytrace_core::color::Color;
use raytrace_core::vector::Vec3;
use raytrace_core::SCALE;

const S: i64 = SCALE;

fn diffuse(albedo: i64) -> Material {
    Material { color: Color::white(), albedo, surface: Surface::Diffuse }
}

fn sphere(x: i64, y: i64, z: i64, r: i64, albedo: i64) -> SceneItem {
    SceneItem::Sphere(Sphere::new(Vec3::new(x, y, z), r, diffuse(albedo)))
}

/// Closest positive hit by a plain linear scan, for comparison with the
/// hierarchy's traversal.
fn brute_force(items: &[SceneItem], ray: &Ray) -> Option<i128> {
    let mut best: Option<i128> = None;
    for item in items {
        let d = item.intersect(ray);
        if d > 0 {
            best = Some(match best {
                Some(b) if b <= d => b,
                _ => d,
            });
        }
    }
    best
}

#[test]
fn sphere_hit_distance_through_center() {
    let s = Sphere::new(Vec3::new(0, 0, 0), S, diffuse(S));
    let ray = Ray::new(Vec3::new(0, 0, 5 * S), Vec3::new(0, 0, -S), 0);
    // |origin - center| - radius = 5 - 1 = 4
    assert_eq!(s.intersect(&ray), 4 * S as i128);
}

#[test]
fn sphere_miss_beyond_radius() {
    let s = Sphere::new(Vec3::new(0, 0, 0), S, diffuse(S));
    let ray = Ray::new(Vec3::new(0, 3 * S, 5 * S), Vec3::new(0, 0, -S), 0);
    assert!(s.intersect(&ray) <= 0);
}

#[test]
fn moving_sphere_center_interpolates() {
    let m = MovingSphere::new(
        Vec3::new(0, 0, 0),
        Vec3::new(4 * S, 0, 0),
        S,
        diffuse(S),
        0,
        4 * S,
    );
    assert_eq!(m.center(0), Vec3::new(0, 0, 0));
    assert_eq!(m.center(4 * S), Vec3::new(4 * S, 0, 0));
    assert_eq!(m.center(2 * S), Vec3::new(2 * S, 0, 0));
    assert_eq!(m.center(S), Vec3::new(S, 0, 0));
}

#[test]
fn moving_sphere_is_hit_at_its_time() {
    let m = SceneItem::MovingSphere(MovingSphere::new(
        Vec3::new(0, 0, 0),
        Vec3::new(10 * S, 0, 0),
        S,
        diffuse(S),
        0,
        2 * S,
    ));
    // at time 0 the sphere sits at the origin
    let at_start = Ray::new(Vec3::new(0, 0, 5 * S), Vec3::new(0, 0, -S), 0);
    assert_eq!(m.intersect(&at_start), 4 * S as i128);
    // at the end of the interval it has moved out of this ray's path
    let at_end = Ray::new(Vec3::new(0, 0, 5 * S), Vec3::new(0, 0, -S), 2 * S);
    assert!(m.intersect(&at_end) <= 0);
}

#[test]
fn bounding_boxes_of_primitives() {
    let s = Sphere::new(Vec3::new(2 * S, 0, -S), S, diffuse(S));
    let b = s.bounding_box();
    assert_eq!(b.min(), Vec3::new(S, -S, -2 * S));
    assert_eq!(b.max(), Vec3::new(3 * S, S, 0));
    let m = MovingSphere::new(Vec3::new(0, 0, 0), Vec3::new(2 * S, 0, 0), S, diffuse(S), 0, S);
    let mb = m.bounding_box();
    assert_eq!(mb.min(), Vec3::new(-S, -S, -S));
    assert_eq!(mb.max(), Vec3::new(3 * S, S, S));
}

#[test]
fn root_box_equals_fold_of_item_boxes_under_permutations() {
    let items = [
        sphere(0, -1000 * S, -S, 1000 * S, S / 4),
        sphere(0, S, 0, S, S / 2),
        sphere(-4 * S, S, 0, S, S / 2),
        sphere(4 * S, S, 0, S, S / 2),
        sphere(S, 3 * S, 2 * S, S / 2, S / 2),
    ];
    let mut expected: Option<AABB> = None;
    for it in &items {
        let b = it.bounding_box();
        expected = Some(match expected {
            None => b,
            Some(e) => surrounding_box(&e, &b),
        });
    }
    let expected = expected.unwrap();
    // every rotation of the list, and the build's own random axis draws,
    // give the same root box
    for start in 0..items.len() {
        let mut permuted: Vec<SceneItem> = Vec::new();
        for k in 0..items.len() {
            permuted.push(items[(start + k) % items.len()]);
        }
        let scene = Scene::new(permuted);
        assert_eq!(scene.bvh.bbox.min(), expected.min());
        assert_eq!(scene.bvh.bbox.max(), expected.max());
    }
}

#[test]
fn traversal_agrees_with_linear_scan() {
    let items = vec![
        sphere(0, -1000 * S, -S, 1000 * S, S / 4),
        sphere(0, S, 0, S, S / 2),
        sphere(-4 * S, S, 0, S, S / 2),
        sphere(4 * S, S, 0, S, S / 2),
        sphere(S, 3 * S, 2 * S, S / 2, S / 2),
        sphere(-2 * S, 2 * S, -3 * S, S, S / 2),
    ];
    let scene = Scene::new(items.clone());
    let rays = [
        Ray::new(Vec3::new(0, S, 5 * S), Vec3::new(0, 0, -S), 0),
        Ray::new(Vec3::new(9 * S, 6 * S, 3 * S), Vec3::new(-9 * S, -5 * S, -3 * S), 0),
        Ray::new(Vec3::new(0, 10 * S, 0), Vec3::new(0, -S, 0), 0),
        Ray::new(Vec3::new(0, 10 * S, 0), Vec3::new(0, S, 0), 0),
        Ray::new(Vec3::new(-8 * S, S, 0), Vec3::new(S, 0, 0), 0),
        Ray::new(Vec3::new(3 * S, 3 * S, 3 * S), Vec3::new(-S, -S, -S), 0),
        Ray::new(Vec3::new(0, 2 * S, 0), Vec3::new(S, S, S), 0),
    ];
    for ray in &rays {
        let expected = brute_force(&items, ray);
        match (scene.trace(ray), expected) {
            (None, None) => {},
            (Some(hit), Some(d)) => assert_eq!(hit.dist, d),
            (got, want) => panic!("traversal disagrees: {:?} vs {:?}", got.map(|h| h.dist), want),
        }
    }
}

#[test]
fn occluded_sphere_is_never_reported() {
    let near = sphere(0, 0, 2 * S, S, S / 4);
    let far = sphere(0, 0, -6 * S, S, S / 2);
    let scene = Scene::new(vec![far, near]);
    let ray = Ray::new(Vec3::new(0, 0, 10 * S), Vec3::new(0, 0, -S), 0);
    let hit = scene.trace(&ray).expect("the ray runs through both spheres");
    // the near sphere's surface is at z = 3, seven units from the origin
    assert_eq!(hit.dist, 7 * S as i128);
    let m = hit.intersected.material();
    assert_eq!(m.albedo, S / 4);
}

#[test]
fn single_item_scene_traces() {
    let scene = Scene::new(vec![sphere(0, 0, 0, S, S)]);
    let hit = scene.trace(&Ray::new(Vec3::new(0, 0, 5 * S), Vec3::new(0, 0, -S), 0));
    assert_eq!(hit.expect("direct hit").dist, 4 * S as i128);
    assert!(scene.trace(&Ray::new(Vec3::new(0, 0, 5 * S), Vec3::new(0, 0, S), 0)).is_none());
}

#[test]
fn bvh_accessors_expose_the_tree() {
    let scene = Scene::new(vec![sphere(0, 0, 0, S, S), sphere(4 * S, 0, 0, S, S)]);
    let root = &scene.bvh;
    assert!(root.item().is_none());
    let left = root.left().expect("two items give an internal root");
    let right = root.right().expect("two items give an internal root");
    assert!(left.item().is_some());
    assert!(right.item().is_some());
    let lb = left.bounding_box();
    let rb = right.bounding_box();
    let sb = surrounding_box(&lb, &rb);
    assert_eq!(sb.min(), root.bbox.min());
    assert_eq!(sb.max(), root.bbox.max());
}

#[test]
fn root_box_of_a_large_set_is_permutation_independent() {
    // a 37-primitive set laid out deterministically
    let mut items: Vec<SceneItem> = Vec::new();
    for k in 0..37i64 {
        let x = (k % 7) * S - 3 * S;
        let y = (k % 5) * S / 2;
        let z = (k % 11) * S - 5 * S;
        let r = S / 4 + (k % 3) * S / 8;
        items.push(sphere(x, y, z, r, S / 2));
    }
    let mut expected: Option<AABB> = None;
    for it in &items {
        let b = it.bounding_box();
        expected = Some(match expected {
            None => b,
            Some(e) => surrounding_box(&e, &b),
        });
    }
    let expected = expected.unwrap();
    // 100 deterministic shuffles; the build's own axis draws vary freely too
    let mut state: u64 = 0x2545F4914F6CDD1D;
    for _round in 0..100 {
        let mut permuted = items.clone();
        for i in (1..permuted.len()).rev() {
            state = state.wrapping_mul(6364136223846793005).wrapping_add(1442695040888963407);
            let j = (state >> 33) as usize % (i + 1);
            permuted.swap(i, j);
        }
        let scene = Scene::new(permuted);
        assert_eq!(scene.bvh.bbox.min(), expected.min());
        assert_eq!(scene.bvh.bbox.max(), expected.max());
    }
}

#[test]
fn traversal_with_a_moving_sphere_matches_the_scan() {
    let items = vec![
        sphere(0, 0, 0, S, S / 2),
        SceneItem::MovingSphere(MovingSphere::new(
            Vec3::new(0, 0, 3 * S),
            Vec3::new(8 * S, 0, 3 * S),
            S,
            diffuse(S / 4),
            0,
            2 * S,
        )),
        sphere(0, 0, -5 * S, S, S / 8),
    ];
    let scene = Scene::new(items.clone());
    for time in [0i64, S, 2 * S] {
        let ray = Ray::new(Vec3::new(0, 0, 10 * S), Vec3::new(0, 0, -S), time);
        let expected = brute_force(&items, &ray);
        match (scene.trace(&ray), expected) {
            (None, None) => {},
            (Some(hit), Some(d)) => assert_eq!(hit.dist, d),
            (got, want) => panic!("traversal disagrees: {:?} vs {:?}", got.map(|h| h.dist), want),
        }
    }
}
