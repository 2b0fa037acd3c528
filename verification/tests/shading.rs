use raytrace_core::color::Color;
use raytrace_core::ray::Ray;
use raytrace_core::render::{
    dielectric_direction, get_color, random_unit_sphere, reflect, refract, schlick, sky_color,
};
use raytrace_core::scene::{Material, Scene, SceneItem, Sphere, Surface};
use raytrace_core::vector::Vec3;
use raytrace_core::SCALE;

const S: i64 = SCALE;

fn white_diffuse_unit_sphere() -> Scene {
    let m = Material { color: Color::white(), albedo: S, surface: Surface::Diffuse };
    Scene::new(vec![SceneItem::Sphere(Sphere::new(Vec3::new(0, 0, 0), S, m))])
}

#[test]
fn depth_beyond_bound_is_exactly_black() {
    let scene = white_diffuse_unit_sphere();
    let rays = [
        Ray::new(Vec3::new(0, 0, 5 * S), Vec3::new(0, 0, -S), 0),
        Ray::new(Vec3::new(0, 0, 5 * S), Vec3::new(0, S, 0), 0),
        Ray::new(Vec3::new(2 * S, -3 * S, S), Vec3::new(S, S, S), 0),
    ];
    for ray in &rays {
        assert_eq!(get_color(&scene, ray, 51), Color::black());
        assert_eq!(get_color(&scene, ray, 255), Color::black());
    }
}

#[test]
fn escaped_rays_shade_with_the_sky_gradient() {
    let scene = white_diffuse_unit_sphere();
    // straight up: the blend lands entirely on the sky blue endpoint
    let up = Ray::new(Vec3::new(0, 10 * S, 0), Vec3::new(0, S, 0), 0);
    assert_eq!(get_color(&scene, &up, 0), Color::new(S / 2, 45875, S));
    assert_eq!(sky_color(&up), Color::new(S / 2, 45875, S));
    // straight down from below the scene: the blend lands on white
    let down = Ray::new(Vec3::new(0, -10 * S, 0), Vec3::new(0, -S, 0), 0);
    assert_eq!(sky_color(&down), Color::white());
}

#[test]
fn shaded_channels_stay_in_unit_range() {
    let scene = white_diffuse_unit_sphere();
    let rays = [
        Ray::new(Vec3::new(0, 0, 5 * S), Vec3::new(0, 0, -S), 0),
        Ray::new(Vec3::new(0, 0, 5 * S), Vec3::new(0, S / 7, -S), 0),
        Ray::new(Vec3::new(3 * S, 0, 0), Vec3::new(-S, 0, 0), 0),
    ];
    for ray in &rays {
        for depth in [0u8, 1, 49, 50] {
            let c = get_color(&scene, ray, depth);
            assert!(0 <= c.r && c.r <= S);
            assert!(0 <= c.g && c.g <= S);
            assert!(0 <= c.b && c.b <= S);
        }
    }
}

#[test]
fn reflect_mirrors_about_the_normal() {
    let v = Vec3::new(S, -S, 0);
    let n = Vec3::new(0, S, 0);
    assert_eq!(reflect(v, n), Vec3::new(S, S, 0));
    // a direction along the normal reflects straight back
    assert_eq!(reflect(Vec3::new(0, -S, 0), n), Vec3::new(0, S, 0));
}

#[test]
fn refraction_straight_through_at_normal_incidence() {
    let v = Vec3::new(0, 0, -S);
    let n = Vec3::new(0, 0, S);
    // eta = 1/1.5 at fixed-point scale
    let eta = 43690;
    let refracted = refract(&v, &n, eta).expect("normal incidence refracts");
    assert_eq!(refracted, Vec3::new(0, 0, -S));
}

#[test]
fn grazing_exit_from_dense_glass_reflects_totally() {
    // leaving a medium of index 2.4 at a grazing angle
    let v = Vec3::new(S, 0, S / 10);
    let n = Vec3::new(0, 0, S);
    let eta = (24 * S) / 10;
    assert!(refract(&v, &n, eta).is_none());
    let reflected = reflect(v.normalize(), n);
    for draw in [0, S / 2, S - 1] {
        assert_eq!(dielectric_direction(reflected, None, 0, draw), reflected);
        assert_eq!(dielectric_direction(reflected, None, S, draw), reflected);
    }
}

#[test]
fn dielectric_draw_picks_between_the_branches() {
    let reflected = Vec3::new(S, S, 0);
    let refracted = Vec3::new(0, -S, 0);
    assert_eq!(dielectric_direction(reflected, Some(refracted), S / 2, 0), reflected);
    assert_eq!(dielectric_direction(reflected, Some(refracted), S / 2, S - 1), refracted);
}

#[test]
fn schlick_reflectance_values() {
    // head-on incidence against index 1.5: only the r0 term remains
    assert_eq!(schlick(S, 3 * S / 2), 2621);
    // cosine 0: r0 + (1 - r0) = 1, up to the truncation in each step
    let grazing = schlick(0, 3 * S / 2);
    assert!(S - 16 <= grazing && grazing <= S);
}

#[test]
fn rejection_sampler_stays_inside_the_unit_ball() {
    for _ in 0..200 {
        let p = random_unit_sphere();
        assert!(0 <= p.x && p.x < S);
        assert!(0 <= p.y && p.y < S);
        assert!(0 <= p.z && p.z < S);
        let d = (p.x as i128) * (p.x as i128) + (p.y as i128) * (p.y as i128)
            + (p.z as i128) * (p.z as i128);
        assert!(d < (S as i128) * (S as i128));
    }
}

#[test]
fn tracing_the_unit_sphere_scenario() {
    let scene = white_diffuse_unit_sphere();
    let ray = Ray::new(Vec3::new(0, 0, 5 * S), Vec3::new(0, 0, -S), 0);
    let hit = scene.trace(&ray).expect("the ray points at the sphere");
    assert_eq!(hit.dist, 4 * S as i128);
    // the recursive bounce originates at the hit point (0, 0, 1)
    assert_eq!(ray.point_at(hit.dist), Vec3::new(0, 0, S));
}

#[test]
fn last_depth_hit_attenuates_to_black() {
    // at depth 50 the recursive continuation is cut off at 51 and returns
    // black, so one more scattering step multiplies to exact black
    let hit_ray = Ray::new(Vec3::new(0, 0, 5 * S), Vec3::new(0, 0, -S), 0);
    for surface in [
        Surface::Diffuse,
        Surface::Reflective { reflectivity: S / 2 },
        Surface::Refractive { index: 3 * S / 2 },
    ] {
        let m = Material { color: Color::white(), albedo: S, surface };
        let scene = Scene::new(vec![SceneItem::Sphere(Sphere::new(Vec3::new(0, 0, 0), S, m))]);
        assert_eq!(get_color(&scene, &hit_ray, 50), Color::black());
    }
}

#[test]
fn fuzz_free_mirror_bounce_is_deterministic() {
    // reflectivity zero leaves no random perturbation: the bounce from the
    // sphere's top goes straight up, escapes, and is shaded by the sky
    let m = Material {
        color: Color::white(),
        albedo: S,
        surface: Surface::Reflective { reflectivity: 0 },
    };
    let scene = Scene::new(vec![SceneItem::Sphere(Sphere::new(Vec3::new(0, 0, 0), S, m))]);
    let ray = Ray::new(Vec3::new(0, 5 * S, 0), Vec3::new(0, -S, 0), 0);
    let expected = Color::new(S / 2, 45875, S);
    for _ in 0..8 {
        assert_eq!(get_color(&scene, &ray, 0), expected);
    }
}
