use rand::rngs::StdRng;
use rand::{Rng, SeedableRng};
use raytrace::camera::Camera;
use raytrace::fixed::ONE;
use raytrace::material::{Lambertian, Material, Metal};
use raytrace::ray::Ray;
use raytrace::render::{
    average, background, channel_to_byte, color, normal_color, pixel_color, pixel_color_from,
    sample_ray, trace,
    MAX_DEPTH,
};
use raytrace::scene::Scene;
use raytrace::sphere::Sphere;
use raytrace::vec3::Vec3;

fn v(x: i64, y: i64, z: i64) -> Vec3 {
    Vec3::new(x, y, z)
}

fn still_samples(n: usize) -> Vec<Vec3> {
    vec![v(0, 0, ONE); n]
}

#[test]
fn background_is_white_overhead() {
    assert_eq!(background(&v(0, ONE, 0)), v(ONE, ONE, ONE));
    assert_eq!(background(&v(0, 3 * ONE, 0)), v(ONE, ONE, ONE));
}

#[test]
fn background_is_sky_blue_underfoot() {
    assert_eq!(background(&v(0, -ONE, 0)), v(500_000, 700_000, ONE));
}

#[test]
fn background_at_the_horizon_is_half_way() {
    assert_eq!(background(&v(ONE, 0, 0)), v(750_000, 850_000, ONE));
}

#[test]
fn empty_scene_looking_up_is_white() {
    let scene = Scene::new();
    let ray = Ray::new(v(0, 0, 0), v(0, ONE, 0));
    assert_eq!(trace(&scene, &ray, &still_samples(MAX_DEPTH)), v(ONE, ONE, ONE));
    assert_eq!(color(&scene, &ray), v(ONE, ONE, ONE));
}

#[test]
fn no_bounces_left_is_black() {
    let scene = Scene::new();
    let ray = Ray::new(v(0, 0, 0), v(0, ONE, 0));
    assert_eq!(trace(&scene, &ray, &Vec::new()), v(0, 0, 0));
}

fn one_grey_sphere() -> Scene {
    let mut scene = Scene::new();
    scene.add_object(Sphere::new(
        v(0, 0, -ONE),
        ONE / 2,
        Material::Lambertian(Lambertian::new(v(ONE / 2, ONE / 2, ONE / 2))),
    ));
    scene
}

#[test]
fn diffuse_bounce_attenuates_the_sky() {
    let scene = one_grey_sphere();
    let ray = Ray::new(v(0, 0, 0), v(0, 0, -ONE));
    let h = scene.hit(&ray, 0, i64::MAX).unwrap();
    assert_eq!((h.t, h.point, h.normal), (ONE / 2, v(0, 0, -ONE / 2), v(0, 0, ONE)));
    // The bounce leaves toward +z and sees the horizon colour, halved.
    assert_eq!(trace(&scene, &ray, &still_samples(2)), v(375_000, 425_000, 500_000));
}

#[test]
fn path_cut_off_at_the_depth_limit_is_black() {
    let scene = one_grey_sphere();
    let ray = Ray::new(v(0, 0, 0), v(0, 0, -ONE));
    assert_eq!(trace(&scene, &ray, &still_samples(1)), v(0, 0, 0));
}

#[test]
fn absorbed_path_is_black() {
    let mut scene = Scene::new();
    scene.add_object(Sphere::new(v(0, 0, -ONE), ONE / 2, Material::Metal(Metal::new(v(ONE, ONE, ONE)))));
    // From the centre the ray leaves through the far side, where the
    // reflection points back inside.
    let ray = Ray::new(v(0, 0, -ONE), v(0, 0, -ONE));
    assert_eq!(trace(&scene, &ray, &still_samples(MAX_DEPTH)), v(0, 0, 0));
}

#[test]
fn colour_stays_in_range() {
    let scene = one_grey_sphere();
    let ray = Ray::new(v(0, 0, 0), v(0, 0, -ONE));
    for _ in 0..20 {
        let c = color(&scene, &ray);
        assert!(c.is_colour());
        assert!(c.x <= ONE / 2);
    }
}

#[test]
fn average_rounds_down_per_channel() {
    let colours = vec![v(ONE, 0, ONE / 2), v(0, 0, ONE / 2), v(1, 0, 0)];
    assert_eq!(average(&colours), v(333_333, 0, 333_333));
    assert_eq!(average(&vec![v(7, 8, 9)]), v(7, 8, 9));
}

#[test]
fn channel_bytes() {
    assert_eq!(channel_to_byte(ONE), 255);
    assert_eq!(channel_to_byte(ONE / 2), 127);
    assert_eq!(channel_to_byte(0), 0);
}

#[test]
fn normal_colours() {
    assert_eq!(normal_color(&v(0, 0, ONE)), v(ONE / 2, ONE / 2, ONE));
    assert_eq!(normal_color(&v(-ONE, 0, 0)), v(0, ONE / 2, ONE / 2));
}

#[test]
fn camera_rays() {
    let cam = Camera::default();
    assert!(cam.is_valid());
    assert_eq!(cam.get_ray(0, 0), Ray::new(v(0, 0, 0), v(-2 * ONE, -ONE, -ONE)));
    assert_eq!(cam.get_ray(ONE / 2, ONE / 2), Ray::new(v(0, 0, 0), v(0, 0, -ONE)));
    assert_eq!(cam.get_ray(ONE, ONE), Ray::new(v(0, 0, 0), v(2 * ONE, ONE, -ONE)));
}

#[test]
fn pixel_sample_rays() {
    let cam = Camera::default();
    assert_eq!(sample_ray(&cam, 0, 0, 200, 100, 0, 0), cam.get_ray(0, 0));
    assert_eq!(sample_ray(&cam, 100, 50, 200, 100, 0, 0), cam.get_ray(ONE / 2, ONE / 2));
    assert_eq!(sample_ray(&cam, 1, 2, 4, 8, ONE / 2, ONE / 2), cam.get_ray(375_000, 312_500));
}

#[test]
fn pixel_colour_of_open_sky() {
    let cam = Camera::default();
    let scene = Scene::new();
    let c = pixel_color(&cam, &scene, 100, 50, 200, 100, 16);
    let centre = background(&sample_ray(&cam, 100, 50, 200, 100, ONE / 2, ONE / 2).direction);
    assert!((c.x - centre.x).abs() < ONE / 100);
    assert!((c.y - centre.y).abs() < ONE / 100);
    assert_eq!(c.z, ONE);
}

#[test]
fn seeded_jitter_converges_to_the_pixel_centre() {
    let cam = Camera::default();
    let scene = Scene::new();
    let mut rng = StdRng::seed_from_u64(7);
    let (i, j, nx, ny) = (37, 81, 200, 100);
    let mut colours = Vec::new();
    for _ in 0..1000 {
        let du = rng.random_range(0..ONE);
        let dv = rng.random_range(0..ONE);
        let ray = sample_ray(&cam, i, j, nx, ny, du, dv);
        colours.push(trace(&scene, &ray, &still_samples(MAX_DEPTH)));
    }
    let mean = average(&colours);
    let centre = background(&sample_ray(&cam, i, j, nx, ny, ONE / 2, ONE / 2).direction);
    assert!((mean.x - centre.x).abs() < ONE / 1000, "{:?} {:?}", mean, centre);
    assert!((mean.y - centre.y).abs() < ONE / 1000, "{:?} {:?}", mean, centre);
    assert!((mean.z - centre.z).abs() < ONE / 1000, "{:?} {:?}", mean, centre);
}

#[test]
fn unit_ball_samples_are_inside_and_spread() {
    let draws: Vec<Vec3> = (0..200).map(|_| Vec3::random_in_unit_sphere()).collect();
    for p in &draws {
        assert!(p.squared_length() < (ONE as i128) * (ONE as i128));
    }
    assert!(draws.iter().any(|p| p.x < 0));
    assert!(draws.iter().any(|p| p.x > 0));
    assert!(draws.iter().any(|p| *p != draws[0]));
}

#[test]
fn pixel_colour_from_given_draws_is_the_mean_of_the_samples() {
    let cam = Camera::default();
    let scene = one_grey_sphere();
    let jitters = vec![(0, 0), (ONE / 2, ONE / 2), (ONE - 1, 0)];
    let bounces = vec![still_samples(MAX_DEPTH), still_samples(MAX_DEPTH), still_samples(MAX_DEPTH)];
    let (i, j, nx, ny) = (100, 50, 200, 100);
    let colours: Vec<Vec3> = jitters
        .iter()
        .zip(bounces.iter())
        .map(|(&(du, dv), b)| trace(&scene, &sample_ray(&cam, i, j, nx, ny, du, dv), b))
        .collect();
    let got = pixel_color_from(&cam, &scene, i, j, nx, ny, &jitters, &bounces);
    assert_eq!(got, average(&colours));
    // The centre sample hits the sphere head-on and sees the halved horizon.
    assert_eq!(colours[1], v(375_000, 425_000, 500_000));
}
