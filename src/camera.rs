//! A pinhole camera that turns viewport coordinates into rays.
use crate::fixed::{fx_mul, lemma_div_bounds, mul_fixed, ONE};
use crate::ray::Ray;
use crate::vec3::{in_box, vec_of, Vec3};
use vstd::prelude::*;

verus! {

/// Largest coordinate of a camera's vectors: a quarter of `LIMIT`, so that
/// every ray it makes stays in the working box.
pub const CAMERA_LIMIT: i64 = 128_000_000;

/// The eye, and the viewport spanned from its lower-left corner.
#[derive(Clone, Copy, Debug, PartialEq, Eq, Structural)]
pub struct Camera {
    pub origin: Vec3,
    pub lower_left_corner: Vec3,
    pub horizontal: Vec3,
    pub vertical: Vec3,
}

/// The direction from the eye to the viewport point at `(u, v)`.
pub open spec fn view_direction(c: Camera, u: int, v: int) -> Vec3 {
    vec_of(
        c.lower_left_corner.x + fx_mul(c.horizontal.x as int, u) + fx_mul(c.vertical.x as int, v)
            - c.origin.x,
        c.lower_left_corner.y + fx_mul(c.horizontal.y as int, u) + fx_mul(c.vertical.y as int, v)
            - c.origin.y,
        c.lower_left_corner.z + fx_mul(c.horizontal.z as int, u) + fx_mul(c.vertical.z as int, v)
            - c.origin.z,
    )
}

/// Scaling by a fraction in `[0, ONE]` does not grow a component.
proof fn lemma_scale_fraction(a: int, u: int, k: int)
    requires
        -k <= a <= k,
        0 <= u <= ONE,
    ensures
        -k <= fx_mul(a, u) <= k,
{
    assert(-k * (ONE as int) <= a * u <= k * (ONE as int)) by (nonlinear_arith)
        requires
            -k <= a <= k,
            0 <= u <= ONE,
    ;
    lemma_div_bounds(a * u, -k, k, ONE as int);
}

impl Default for Camera {
    /// The eye at the origin, looking down `-z` at a 4 by 2 viewport one unit away.
    fn default() -> (r: Camera)
        ensures
            r == (Camera {
                origin: Vec3 { x: 0, y: 0, z: 0 },
                lower_left_corner: Vec3 { x: -2_000_000i64, y: -1_000_000i64, z: -1_000_000i64 },
                horizontal: Vec3 { x: 4_000_000, y: 0, z: 0 },
                vertical: Vec3 { x: 0, y: 2_000_000, z: 0 },
            }),
    {
        Camera {
            origin: Vec3 { x: 0, y: 0, z: 0 },
            lower_left_corner: Vec3 { x: -2_000_000i64, y: -1_000_000i64, z: -1_000_000i64 },
            horizontal: Vec3 { x: 4_000_000, y: 0, z: 0 },
            vertical: Vec3 { x: 0, y: 2_000_000, z: 0 },
        }
    }
}

impl Camera {
    /// All four vectors lie within `CAMERA_LIMIT`.
    pub open spec fn wf(&self) -> bool {
        in_box(self.origin, CAMERA_LIMIT as int) && in_box(self.lower_left_corner, CAMERA_LIMIT as int)
            && in_box(self.horizontal, CAMERA_LIMIT as int) && in_box(self.vertical, CAMERA_LIMIT as int)
    }

    /// Whether all four vectors lie within `CAMERA_LIMIT`.
    pub fn is_valid(&self) -> (r: bool)
        ensures
            r == self.wf(),
    {
        self.origin.within(CAMERA_LIMIT) && self.lower_left_corner.within(CAMERA_LIMIT)
            && self.horizontal.within(CAMERA_LIMIT) && self.vertical.within(CAMERA_LIMIT)
    }

    /// The ray from the eye through the viewport point at fractions `u`
    /// across and `v` up.
    pub fn get_ray(&self, u: i64, v: i64) -> (r: Ray)
        requires
            self.wf(),
            0 <= u <= ONE,
            0 <= v <= ONE,
        ensures
            r == (Ray { origin: self.origin, direction: view_direction(*self, u as int, v as int) }),
            r.wf(),
    {
        let ghost k = CAMERA_LIMIT as int;
        proof {
            lemma_scale_fraction(self.horizontal.x as int, u as int, k);
            lemma_scale_fraction(self.horizontal.y as int, u as int, k);
            lemma_scale_fraction(self.horizontal.z as int, u as int, k);
            lemma_scale_fraction(self.vertical.x as int, v as int, k);
            lemma_scale_fraction(self.vertical.y as int, v as int, k);
            lemma_scale_fraction(self.vertical.z as int, v as int, k);
        }
        let hu = Vec3 {
            x: mul_fixed(self.horizontal.x, u),
            y: mul_fixed(self.horizontal.y, u),
            z: mul_fixed(self.horizontal.z, u),
        };
        let vv = Vec3 {
            x: mul_fixed(self.vertical.x, v),
            y: mul_fixed(self.vertical.y, v),
            z: mul_fixed(self.vertical.z, v),
        };
        let llc = self.lower_left_corner;
        let o = self.origin;
        let direction = Vec3 {
            x: llc.x + hu.x + vv.x - o.x,
            y: llc.y + hu.y + vv.y - o.y,
            z: llc.z + hu.z + vv.z - o.z,
        };
        Ray { origin: self.origin, direction }
    }
}

} // verus!
