use raytrace::fixed::ONE;
use raytrace::material::{Lambertian, Material, Metal};
use raytrace::ray::Ray;
use raytrace::scene::Scene;
use raytrace::sphere::{HitRecord, Sphere};
use raytrace::vec3::Vec3;

fn v(x: i64, y: i64, z: i64) -> Vec3 {
    Vec3::new(x, y, z)
}

fn grey() -> Material {
    Material::Lambertian(Lambertian::new(v(ONE / 2, ONE / 2, ONE / 2)))
}

#[test]
fn dot_of_integer_vectors() {
    assert_eq!(v(ONE, 2 * ONE, 3 * ONE).dot(&v(4 * ONE, 5 * ONE, 6 * ONE)), 32 * ONE);
}

#[test]
fn length_and_unit_vector() {
    let a = v(3 * ONE, 4 * ONE, 0);
    assert_eq!(a.squared_length(), 25 * (ONE as i128) * (ONE as i128));
    assert_eq!(a.length(), 5 * ONE);
    assert_eq!(a.unit_vector(), v(600_000, 800_000, 0));
    assert_eq!(v(0, -7, 0).unit_vector(), v(0, -ONE, 0));
}

#[test]
fn unit_vector_of_zero_is_zero() {
    assert_eq!(v(0, 0, 0).unit_vector(), v(0, 0, 0));
}

#[test]
fn scale_and_divide_round_down() {
    assert_eq!(v(ONE, 2 * ONE, 3 * ONE).mul(ONE / 2), v(ONE / 2, ONE, 3 * ONE / 2));
    assert_eq!(v(-1, 1, 0).mul(ONE / 2), v(-1, 0, 0));
    assert_eq!(v(ONE, -ONE, 0).div(3 * ONE), v(333_333, -333_334, 0));
}

#[test]
fn add_sub_neg() {
    let a = v(1, 2, 3);
    let b = v(10, 20, 30);
    assert_eq!(a.add(&b), v(11, 22, 33));
    assert_eq!(a.sub(&b), v(-9, -18, -27));
    assert_eq!(a.neg(), v(-1, -2, -3));
    assert_eq!((a.r(), a.g(), a.b()), (1, 2, 3));
    assert_eq!((a.x(), a.y(), a.z()), (1, 2, 3));
}

#[test]
fn reflect_head_on_reverses_direction() {
    let n = v(0, ONE, 0);
    let d = v(0, -ONE, 0);
    let r = d.reflect(&n);
    assert_eq!(r, v(0, ONE, 0));
    assert_eq!(r.dot(&n), -d.dot(&n));
}

#[test]
fn reflect_keeps_tangential_component() {
    let n = v(0, ONE, 0);
    let d = v(ONE, -2 * ONE, 3 * ONE);
    let r = d.reflect(&n);
    assert_eq!(r, v(ONE, 2 * ONE, 3 * ONE));
    assert_eq!(r.dot(&n), -d.dot(&n));
}

#[test]
fn point_at_parameter() {
    let ray = Ray::new(v(ONE, 0, 0), v(0, 2 * ONE, -ONE));
    assert_eq!(ray.point_at(ONE / 2), v(ONE, ONE, -ONE / 2));
    assert_eq!(*ray.origin(), v(ONE, 0, 0));
    assert_eq!(*ray.direction(), v(0, 2 * ONE, -ONE));
}

#[test]
fn sphere_hit_in_front_of_camera() {
    let s = Sphere::new(v(0, 0, -ONE), ONE / 2, grey());
    let ray = Ray::new(v(0, 0, 0), v(0, 0, -ONE));
    let h = s.hit(&ray, 0, i64::MAX).unwrap();
    assert_eq!(h.t, ONE / 2);
    assert_eq!(h.point, v(0, 0, -ONE / 2));
    assert_eq!(h.normal, v(0, 0, ONE));
    assert_eq!(h.material, grey());
}

#[test]
fn sphere_missed_by_ray() {
    let s = Sphere::new(v(0, 0, -ONE), ONE / 2, grey());
    let ray = Ray::new(v(0, 0, 0), v(0, ONE, 0));
    assert!(s.hit(&ray, 0, i64::MAX).is_none());
}

#[test]
fn sphere_tangent_ray_hits_once() {
    let s = Sphere::new(v(0, 0, -ONE), ONE, grey());
    let ray = Ray::new(v(ONE, 0, 0), v(0, 0, -ONE));
    let h = s.hit(&ray, 0, i64::MAX).unwrap();
    assert_eq!(h.t, ONE);
    assert_eq!(h.point, v(ONE, 0, -ONE));
    assert_eq!(h.normal, v(ONE, 0, 0));
    // The single root is not found again past it.
    assert!(s.hit(&ray, ONE, i64::MAX).is_none());
}

#[test]
fn ray_through_centre_meets_entry_and_exit() {
    let s = Sphere::new(v(0, 0, 0), 2 * ONE, grey());
    let ray = Ray::new(v(0, 0, 5 * ONE), v(0, 0, -ONE));
    let entry = s.hit(&ray, 0, i64::MAX).unwrap();
    assert_eq!(entry.t, 3 * ONE);
    assert_eq!(entry.point, v(0, 0, 2 * ONE));
    assert_eq!(entry.normal, v(0, 0, ONE));
    let exit = s.hit(&ray, 4 * ONE, i64::MAX).unwrap();
    assert_eq!(exit.t, 7 * ONE);
    assert_eq!(exit.point, v(0, 0, -2 * ONE));
    assert_eq!(exit.normal, v(0, 0, -ONE));
    assert!(s.hit(&ray, 0, 3 * ONE).is_none());
    assert!(s.hit(&ray, 3 * ONE, 7 * ONE).is_none());
}

#[test]
fn ray_through_centre_on_a_diagonal_stays_on_the_surface() {
    let r = 2 * ONE;
    let s = Sphere::new(v(0, 0, 0), r, grey());
    let ray = Ray::new(v(-3 * ONE, -3 * ONE, -3 * ONE), v(ONE, ONE, ONE));
    let entry = s.hit(&ray, 0, i64::MAX).unwrap();
    let exit = s.hit(&ray, entry.t, i64::MAX).unwrap();
    assert!(entry.t < exit.t);
    for h in [entry, exit] {
        let p = h.point;
        let d2 = (p.x as i128).pow(2) + (p.y as i128).pow(2) + (p.z as i128).pow(2);
        let r2 = (r as i128).pow(2);
        // Within 1e-5 of the radius.
        assert!((d2 - r2).abs() < 2 * (r as i128) * 10, "{:?}", h);
    }
}

#[test]
fn degenerate_ray_meets_nothing() {
    let s = Sphere::new(v(0, 0, -ONE), ONE / 2, grey());
    let ray = Ray::new(v(0, 0, 0), v(0, 0, 0));
    assert!(s.hit(&ray, 0, i64::MAX).is_none());
}

#[test]
fn validity_checks() {
    assert!(Sphere::new(v(0, 0, -ONE), ONE / 2, grey()).is_valid());
    assert!(!Sphere::new(v(0, 0, -ONE), 0, grey()).is_valid());
    let too_bright = Material::Metal(Metal::new(v(2 * ONE, 0, 0)));
    assert!(!Sphere::new(v(0, 0, -ONE), ONE, too_bright).is_valid());
    assert!(Ray::new(v(0, 0, 0), v(0, 0, -ONE)).is_valid());
    assert!(!Ray::new(v(i64::MAX, 0, 0), v(0, 0, -ONE)).is_valid());
}

fn spheres() -> Vec<Sphere> {
    vec![
        Sphere::new(v(0, 0, -3 * ONE), ONE, grey()),
        Sphere::new(v(0, 0, -1_200_000), ONE / 2, Material::Metal(Metal::new(v(ONE, 0, 0)))),
        Sphere::new(v(0, 0, -ONE), ONE / 2, grey()),
        Sphere::new(v(5 * ONE, 0, -ONE), ONE / 2, grey()),
    ]
}

fn nearest_by_hand(objs: &[Sphere], ray: &Ray, t_min: i64, t_max: i64) -> Option<HitRecord> {
    let mut best: Option<HitRecord> = None;
    for s in objs {
        if let Some(h) = s.hit(ray, t_min, t_max) {
            if best.map_or(true, |b| h.t < b.t) {
                best = Some(h);
            }
        }
    }
    best
}

#[test]
fn scene_returns_the_nearest_of_overlapping_spheres() {
    let objs = spheres();
    let mut scene = Scene::new();
    for s in &objs {
        scene.add_object(*s);
    }
    assert!(scene.is_valid());
    let ray = Ray::new(v(0, 0, 0), v(0, 0, -ONE));
    let h = scene.hit(&ray, 0, i64::MAX).unwrap();
    assert_eq!(h.t, ONE / 2);
    assert_eq!(h.material, grey());
    assert_eq!(Some(h), nearest_by_hand(&objs, &ray, 0, i64::MAX));
}

#[test]
fn scene_matches_a_manual_scan_in_any_order() {
    let objs = spheres();
    let rays = [
        Ray::new(v(0, 0, 0), v(0, 0, -ONE)),
        Ray::new(v(0, 0, 0), v(100_000, 50_000, -ONE)),
        Ray::new(v(0, 0, -5 * ONE), v(0, 0, ONE)),
        Ray::new(v(2 * ONE, 0, 0), v(ONE, 0, -ONE / 3)),
        Ray::new(v(0, 0, 0), v(0, ONE, 0)),
    ];
    for order in [[0usize, 1, 2, 3], [3, 2, 1, 0], [1, 3, 0, 2]] {
        let mut scene = Scene::new();
        let mut placed = Vec::new();
        for &k in &order {
            scene.add_object(objs[k]);
            placed.push(objs[k]);
        }
        for ray in &rays {
            for (t_min, t_max) in [(0, i64::MAX), (ONE, 3 * ONE), (0, ONE / 2)] {
                let got = scene.hit(ray, t_min, t_max);
                let want = nearest_by_hand(&placed, ray, t_min, t_max);
                assert_eq!(got.map(|h| h.t), want.map(|h| h.t));
            }
        }
    }
}

#[test]
fn empty_scene_has_no_hit() {
    let scene = Scene::new();
    let ray = Ray::new(v(0, 0, 0), v(0, 0, -ONE));
    assert!(scene.hit(&ray, 0, i64::MAX).is_none());
}

fn record(point: Vec3, normal: Vec3, material: Material) -> HitRecord {
    HitRecord { t: ONE, point, normal, material }
}

#[test]
fn metal_reflects_outward() {
    let m = Metal::new(v(ONE, ONE / 2, 0));
    let ray = Ray::new(v(0, 0, 0), v(0, 0, -2 * ONE));
    let hit = record(v(0, 0, -ONE), v(0, 0, ONE), Material::Metal(m));
    let (att, out, scattered) = m.scatter(&ray, &hit);
    assert_eq!(att, v(ONE, ONE / 2, 0));
    assert_eq!(out, Ray::new(v(0, 0, -ONE), v(0, 0, ONE)));
    assert!(scattered);
}

#[test]
fn metal_absorbs_reflection_into_surface() {
    let m = Metal::new(v(ONE, ONE, ONE));
    let ray = Ray::new(v(0, 0, 0), v(0, 0, -ONE));
    let hit = record(v(0, 0, -ONE), v(0, 0, -ONE), Material::Metal(m));
    let (_, out, scattered) = m.scatter(&ray, &hit);
    assert_eq!(out.direction, v(0, 0, ONE));
    assert!(out.direction.dot(&hit.normal) <= 0);
    assert!(!scattered);
}

#[test]
fn metal_absorbs_grazing_reflection() {
    let m = Metal::new(v(ONE, ONE, ONE));
    let ray = Ray::new(v(0, 0, 0), v(ONE, 0, 0));
    let hit = record(v(ONE, 0, 0), v(0, ONE, 0), Material::Metal(m));
    let (_, out, scattered) = Material::Metal(m).scatter(&ray, &hit, &v(0, 0, 0));
    assert_eq!(out.direction.dot(&hit.normal), 0);
    assert!(!scattered);
}

#[test]
fn lambertian_scatters_toward_the_sample() {
    let l = Lambertian::new(v(ONE / 2, ONE / 4, 0));
    let ray = Ray::new(v(0, 0, 0), v(0, 0, -ONE));
    let hit = record(v(0, 0, -ONE), v(0, 0, ONE), Material::Lambertian(l));
    let sample = v(300_000, -200_000, 100_000);
    let (att, out, scattered) = Material::Lambertian(l).scatter(&ray, &hit, &sample);
    assert_eq!(att, v(ONE / 2, ONE / 4, 0));
    assert_eq!(out, Ray::new(v(0, 0, -ONE), sample));
    assert!(scattered);
    assert_eq!(l.scatter(&ray, &hit, &sample), (att, out, scattered));
}

#[test]
fn ray_from_centre_meets_surface_behind_and_ahead() {
    let r = 2 * ONE;
    let s = Sphere::new(v(0, 0, 0), r, grey());
    let ray = Ray::new(v(0, 0, 0), v(300_000, -400_000, 500_000));
    let behind = s.hit(&ray, i64::MIN, i64::MAX).unwrap();
    let ahead = s.hit(&ray, 0, i64::MAX).unwrap();
    assert!(behind.t < 0 && ahead.t > 0);
    for h in [behind, ahead] {
        let p = h.point;
        let d2 = (p.x as i128).pow(2) + (p.y as i128).pow(2) + (p.z as i128).pow(2);
        let lo = ((r - 12) as i128).pow(2);
        let hi = ((r + 5) as i128).pow(2);
        assert!(lo <= d2 && d2 <= hi, "{:?}", h);
    }
}

#[test]
fn hit_at_the_edge_of_the_working_box_is_reported() {
    let r = 256 * ONE - 1_000;
    let s = Sphere::new(v(255 * ONE, 0, 0), r, grey());
    assert!(s.is_valid());
    let ray = Ray::new(v(255 * ONE, 0, 0), v(ONE, 0, 0));
    let h = s.hit(&ray, 0, i64::MAX).unwrap();
    assert_eq!(h.t, r);
    assert_eq!(h.point, v(255 * ONE + r, 0, 0));
    assert_eq!(h.normal, v(ONE, 0, 0));
}

#[test]
fn spheres_must_fit_the_working_box() {
    assert!(Sphere::new(v(0, -100 * ONE - ONE / 2, -ONE), 100 * ONE, grey()).is_valid());
    assert!(!Sphere::new(v(300 * ONE, 0, 0), 256 * ONE, grey()).is_valid());
    assert!(!Sphere::new(v(0, 0, 0), 999, grey()).is_valid());
}
