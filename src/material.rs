//! Materials: how a surface turns an incoming ray into an outgoing one.
use crate::fixed::{lemma_div_bounds, lemma_mul_abs_bound, ONE};
use crate::ray::Ray;
use crate::sphere::HitRecord;
use crate::vec3::{dot_raw, dot_spec, in_box, is_colour, reflect_spec, unit_spec, Vec3};
use vstd::prelude::*;

verus! {

/// A diffuse surface. It aims at the hit point plus a random point of the
/// unit ball, so the outgoing direction is that random point itself; the
/// ball is centred on the surface, not pushed out along the normal.
#[derive(Clone, Copy, Debug, PartialEq, Eq, Structural)]
pub struct Lambertian {
    pub attenuation: Vec3,
}

/// A mirror-like surface that reflects the incoming direction.
#[derive(Clone, Copy, Debug, PartialEq, Eq, Structural)]
pub struct Metal {
    pub attenuation: Vec3,
}

/// The material of a surface.
#[derive(Clone, Copy, Debug, PartialEq, Eq, Structural)]
pub enum Material {
    Lambertian(Lambertian),
    Metal(Metal),
}

/// The direction that a metal surface sends `ray_in` off in.
pub open spec fn metal_direction(ray_in: Ray, hit: HitRecord) -> Vec3 {
    reflect_spec(unit_spec(ray_in.direction), hit.normal)
}

/// What a surface of material `m` does with `ray_in` at `hit`: the
/// attenuation, the outgoing ray, and whether the ray goes on at all.
/// `sample` is the random point of the unit ball that a diffuse surface uses.
pub open spec fn scatter_spec(m: Material, ray_in: Ray, hit: HitRecord, sample: Vec3) -> (
    Vec3,
    Ray,
    bool,
) {
    match m {
        Material::Lambertian(l) => (l.attenuation, Ray { origin: hit.point, direction: sample }, true),
        Material::Metal(mm) => {
            let d = metal_direction(ray_in, hit);
            (mm.attenuation, Ray { origin: hit.point, direction: d }, dot_spec(d, hit.normal) > 0)
        },
    }
}

/// A metal surface absorbs the ray exactly when the reflected direction does
/// not point out of the surface.
pub proof fn lemma_metal_absorbs(m: Metal, ray_in: Ray, hit: HitRecord, sample: Vec3)
    ensures
        !scatter_spec(Material::Metal(m), ray_in, hit, sample).2 <==> dot_spec(
            scatter_spec(Material::Metal(m), ray_in, hit, sample).1.direction,
            hit.normal,
        ) <= 0,
{
}

/// A reflected unit direction off a normal of at most twice unit length per
/// component stays within 25 units per component.
proof fn lemma_reflect_bound(v: Vec3, n: Vec3)
    requires
        in_box(v, ONE as int),
        in_box(n, 2 * ONE),
    ensures
        in_box(reflect_spec(v, n), 25 * ONE),
{
    let one = ONE as int;
    lemma_mul_abs_bound(v.x as int, n.x as int, one, 2 * one);
    lemma_mul_abs_bound(v.y as int, n.y as int, one, 2 * one);
    lemma_mul_abs_bound(v.z as int, n.z as int, one, 2 * one);
    lemma_div_bounds(dot_raw(v, n), -6 * one, 6 * one, one);
    let k = 2 * dot_spec(v, n);
    lemma_mul_abs_bound(n.x as int, k, 2 * one, 12 * one);
    lemma_mul_abs_bound(n.y as int, k, 2 * one, 12 * one);
    lemma_mul_abs_bound(n.z as int, k, 2 * one, 12 * one);
    lemma_div_bounds(n.x * k, -24 * one, 24 * one, one);
    lemma_div_bounds(n.y * k, -24 * one, 24 * one, one);
    lemma_div_bounds(n.z * k, -24 * one, 24 * one, one);
}

impl Lambertian {
    pub fn new(attenuation: Vec3) -> (r: Lambertian)
        ensures
            r == (Lambertian { attenuation }),
    {
        Lambertian { attenuation }
    }

    /// Scatters from the hit point toward `sample`, a point of the unit
    /// ball; a diffuse surface never absorbs.
    pub fn scatter(&self, ray_in: &Ray, hit: &HitRecord, sample: &Vec3) -> (r: (Vec3, Ray, bool))
        ensures
            r == scatter_spec(Material::Lambertian(*self), *ray_in, *hit, *sample),
    {
        (self.attenuation, Ray { origin: hit.point, direction: *sample }, true)
    }
}

impl Metal {
    pub fn new(attenuation: Vec3) -> (r: Metal)
        ensures
            r == (Metal { attenuation }),
    {
        Metal { attenuation }
    }

    /// Reflects the normalised incoming direction about the normal; the ray
    /// is absorbed when the reflection points into the surface.
    pub fn scatter(&self, ray_in: &Ray, hit: &HitRecord) -> (r: (Vec3, Ray, bool))
        requires
            ray_in.wf(),
            hit.wf(),
        ensures
            r == (self.attenuation, Ray { origin: hit.point, direction: metal_direction(*ray_in, *hit) }, dot_spec(metal_direction(*ray_in, *hit), hit.normal) > 0),
            r.1.wf(),
    {
        let unit = ray_in.direction.unit_vector();
        let reflected = unit.reflect(&hit.normal);
        proof {
            lemma_reflect_bound(unit, hit.normal);
        }
        let m = reflected.dot(&hit.normal);
        (self.attenuation, Ray { origin: hit.point, direction: reflected }, m > 0)
    }
}

impl Material {
    /// The colour that the surface keeps of the light it scatters.
    pub open spec fn attenuation_spec(&self) -> Vec3 {
        match self {
            Material::Lambertian(l) => l.attenuation,
            Material::Metal(m) => m.attenuation,
        }
    }

    /// The attenuation is a colour.
    pub open spec fn wf(&self) -> bool {
        is_colour(self.attenuation_spec())
    }

    /// Whether the attenuation is a colour.
    pub fn is_valid(&self) -> (r: bool)
        ensures
            r == self.wf(),
    {
        match self {
            Material::Lambertian(l) => l.attenuation.is_colour(),
            Material::Metal(m) => m.attenuation.is_colour(),
        }
    }

    /// What the surface does with `ray_in` at `hit`; `sample` is a point of
    /// the unit ball, used by diffuse surfaces only.
    pub fn scatter(&self, ray_in: &Ray, hit: &HitRecord, sample: &Vec3) -> (r: (Vec3, Ray, bool))
        requires
            ray_in.wf(),
            hit.wf(),
            in_box(*sample, ONE as int),
        ensures
            r == scatter_spec(*self, *ray_in, *hit, *sample),
            r.1.wf(),
    {
        match self {
            Material::Lambertian(l) => l.scatter(ray_in, hit, sample),
            Material::Metal(m) => m.scatter(ray_in, hit),
        }
    }
}

} // verus!
