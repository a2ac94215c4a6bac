//! Rays: an origin and a direction, evaluated at a fixed-point parameter.
use crate::fixed::{div_floor, fits_i64, fx_mul, lemma_div_bounds, lemma_mul_abs_bound, LIMIT, ONE};
use crate::vec3::{in_box, vec_of, Vec3};
use vstd::prelude::*;

verus! {

/// The half-line `origin + t * direction`. The direction is not normalised.
#[derive(Clone, Copy, Debug, PartialEq, Eq, Structural)]
pub struct Ray {
    pub origin: Vec3,
    pub direction: Vec3,
}

/// The point of `ray` at parameter `t`, each component rounded down.
pub open spec fn point_at_spec(ray: Ray, t: int) -> Vec3 {
    vec_of(
        ray.origin.x + fx_mul(ray.direction.x as int, t),
        ray.origin.y + fx_mul(ray.direction.y as int, t),
        ray.origin.z + fx_mul(ray.direction.z as int, t),
    )
}

impl Ray {
    /// Origin and direction both lie in the working box.
    pub open spec fn wf(&self) -> bool {
        in_box(self.origin, LIMIT as int) && in_box(self.direction, LIMIT as int)
    }

    /// Whether origin and direction lie in the working box.
    pub fn is_valid(&self) -> (r: bool)
        ensures
            r == self.wf(),
    {
        self.origin.within(LIMIT) && self.direction.within(LIMIT)
    }

    pub fn new(origin: Vec3, direction: Vec3) -> (r: Ray)
        ensures
            r == (Ray { origin, direction }),
    {
        Ray { origin, direction }
    }

    pub fn origin(&self) -> (r: &Vec3)
        ensures
            *r == self.origin,
    {
        &self.origin
    }

    pub fn direction(&self) -> (r: &Vec3)
        ensures
            *r == self.direction,
    {
        &self.direction
    }

    /// `origin + direction * t`.
    pub fn point_at(&self, t: i64) -> (r: Vec3)
        requires
            self.wf(),
            fits_i64(self.origin.x + fx_mul(self.direction.x as int, t as int)),
            fits_i64(self.origin.y + fx_mul(self.direction.y as int, t as int)),
            fits_i64(self.origin.z + fx_mul(self.direction.z as int, t as int)),
        ensures
            r == point_at_spec(*self, t as int),
    {
        proof {
            lemma_mul_abs_bound(self.direction.x as int, t as int, LIMIT as int, 0x8000_0000_0000_0000);
            lemma_mul_abs_bound(self.direction.y as int, t as int, LIMIT as int, 0x8000_0000_0000_0000);
            lemma_mul_abs_bound(self.direction.z as int, t as int, LIMIT as int, 0x8000_0000_0000_0000);
        }
        proof {
            let k: int = 4_722_366_482_869_645_213_696_000_000;
            lemma_div_bounds(self.direction.x * t, -k, k, ONE as int);
            lemma_div_bounds(self.direction.y * t, -k, k, ONE as int);
            lemma_div_bounds(self.direction.z * t, -k, k, ONE as int);
        }
        let px = div_floor((self.direction.x as i128) * (t as i128), ONE as i128);
        let py = div_floor((self.direction.y as i128) * (t as i128), ONE as i128);
        let pz = div_floor((self.direction.z as i128) * (t as i128), ONE as i128);
        Vec3 {
            x: ((self.origin.x as i128) + px) as i64,
            y: ((self.origin.y as i128) + py) as i64,
            z: ((self.origin.z as i128) + pz) as i64,
        }
    }
}

} // verus!
