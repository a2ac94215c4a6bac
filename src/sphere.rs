//! Spheres and the analytic ray-sphere intersection.
use crate::fixed::{
    div_floor, floor_sqrt, fx_div, fx_mul, isqrt, lemma_div_bounds, lemma_div_is_ordered_int,
    lemma_floor_sqrt_exists, lemma_floor_sqrt_is, lemma_fundamental_div_mod, lemma_mod_pos_bound,
    lemma_mul_abs_bound, lemma_sq_le, LIMIT, ONE,
};
use crate::material::Material;
use crate::ray::Ray;
use crate::vec3::{dot_raw, in_box, vec_of, Vec3};
use vstd::prelude::*;

verus! {

/// How far, per coordinate, a reported point may stray outside its sphere
/// through rounding (0.001).
pub const HIT_SLACK: i64 = 1_000;

/// The least radius of a sphere (0.001), so that rounding keeps every
/// normal within twice unit length per component.
pub const MIN_RADIUS: i64 = 1_000;

/// What a successful intersection test reports.
#[derive(Clone, Copy, Debug, PartialEq, Eq, Structural)]
pub struct HitRecord {
    /// The ray parameter of the hit.
    pub t: i64,
    /// The ray evaluated at `t`.
    pub point: Vec3,
    /// The outward normal, `(point - center) / radius`.
    pub normal: Vec3,
    /// The material of the surface that was hit.
    pub material: Material,
}

/// A sphere with its surface material.
#[derive(Clone, Copy, Debug, PartialEq, Eq, Structural)]
pub struct Sphere {
    pub center: Vec3,
    pub radius: i64,
    pub material: Material,
}

/// `ray.origin - center`.
pub open spec fn oc_spec(s: Sphere, ray: Ray) -> Vec3 {
    vec_of(
        ray.origin.x - s.center.x,
        ray.origin.y - s.center.y,
        ray.origin.z - s.center.z,
    )
}

/// The quadratic `a t^2 + b t + c` whose roots are where the ray meets the
/// sphere, with coefficients at the squared scale `ONE * ONE`.
pub open spec fn quad_a(ray: Ray) -> int {
    dot_raw(ray.direction, ray.direction)
}

pub open spec fn quad_b(s: Sphere, ray: Ray) -> int {
    2 * dot_raw(oc_spec(s, ray), ray.direction)
}

pub open spec fn quad_c(s: Sphere, ray: Ray) -> int {
    dot_raw(oc_spec(s, ray), oc_spec(s, ray)) - s.radius * s.radius
}

/// `b^2 - 4 a c`.
pub open spec fn discriminant(s: Sphere, ray: Ray) -> int {
    quad_b(s, ray) * quad_b(s, ray) - 4 * (quad_a(ray) * quad_c(s, ray))
}

/// The smaller root `(-b - sqrt(disc)) / (2a)` as a fixed-point scalar.
pub open spec fn near_root(s: Sphere, ray: Ray) -> int {
    ((ONE as int) * (-quad_b(s, ray) - floor_sqrt(discriminant(s, ray)))) / (2 * quad_a(ray))
}

/// The larger root `(-b + sqrt(disc)) / (2a)` as a fixed-point scalar.
pub open spec fn far_root(s: Sphere, ray: Ray) -> int {
    ((ONE as int) * (-quad_b(s, ray) + floor_sqrt(discriminant(s, ray)))) / (2 * quad_a(ray))
}

/// The root that a hit in `(t_min, t_max)` is reported at: the nearer one
/// when it lies in the range, else the farther one when it does. A ray with
/// a zero direction meets nothing.
pub open spec fn chosen_root(s: Sphere, ray: Ray, t_min: int, t_max: int) -> Option<int> {
    if quad_a(ray) == 0 || discriminant(s, ray) < 0 {
        None
    } else if t_min < near_root(s, ray) < t_max {
        Some(near_root(s, ray))
    } else if t_min < far_root(s, ray) < t_max {
        Some(far_root(s, ray))
    } else {
        None
    }
}

/// Components of the point of `ray` at `t`, before they are narrowed.
pub open spec fn px(ray: Ray, t: int) -> int {
    ray.origin.x + fx_mul(ray.direction.x as int, t)
}

pub open spec fn py(ray: Ray, t: int) -> int {
    ray.origin.y + fx_mul(ray.direction.y as int, t)
}

pub open spec fn pz(ray: Ray, t: int) -> int {
    ray.origin.z + fx_mul(ray.direction.z as int, t)
}

/// Components of the normal at the point of `ray` at `t`.
pub open spec fn nx(s: Sphere, ray: Ray, t: int) -> int {
    fx_div(px(ray, t) - s.center.x, s.radius as int)
}

pub open spec fn ny(s: Sphere, ray: Ray, t: int) -> int {
    fx_div(py(ray, t) - s.center.y, s.radius as int)
}

pub open spec fn nz(s: Sphere, ray: Ray, t: int) -> int {
    fx_div(pz(ray, t) - s.center.z, s.radius as int)
}

/// The record of a hit at `t`.
pub open spec fn record_at(s: Sphere, ray: Ray, t: int) -> HitRecord {
    HitRecord {
        t: t as i64,
        point: vec_of(px(ray, t), py(ray, t), pz(ray, t)),
        normal: vec_of(nx(s, ray, t), ny(s, ray, t), nz(s, ray, t)),
        material: s.material,
    }
}

/// The nearest hit of `ray` on `s` with parameter strictly inside `(t_min, t_max)`.
pub open spec fn hit_spec(s: Sphere, ray: Ray, t_min: int, t_max: int) -> Option<HitRecord> {
    match chosen_root(s, ray, t_min, t_max) {
        Some(t) => Some(record_at(s, ray, t)),
        None => None,
    }
}

impl HitRecord {
    /// The point lies in the working box, the normal within twice unit
    /// length per component, and the material is well formed.
    pub open spec fn wf(&self) -> bool {
        in_box(self.point, LIMIT as int) && in_box(self.normal, 2 * ONE) && self.material.wf()
    }
}

impl Sphere {
    /// The whole sphere, widened by `HIT_SLACK`, lies in the working box;
    /// the radius is at least `MIN_RADIUS`; the material is well formed.
    pub open spec fn wf(&self) -> bool {
        MIN_RADIUS <= self.radius <= LIMIT - HIT_SLACK && in_box(
            self.center,
            LIMIT - HIT_SLACK - self.radius,
        ) && self.material.wf()
    }

    pub fn new(center: Vec3, radius: i64, material: Material) -> (r: Sphere)
        ensures
            r == (Sphere { center, radius, material }),
    {
        Sphere { center, radius, material }
    }

    /// Whether the sphere is well formed.
    pub fn is_valid(&self) -> (r: bool)
        ensures
            r == self.wf(),
    {
        MIN_RADIUS <= self.radius && self.radius <= LIMIT - HIT_SLACK && self.center.within(
            LIMIT - HIT_SLACK - self.radius,
        ) && self.material.is_valid()
    }

    /// The nearest intersection of `ray` with this sphere whose parameter
    /// lies strictly between `t_min` and `t_max`.
    pub fn hit(&self, ray: &Ray, t_min: i64, t_max: i64) -> (r: Option<HitRecord>)
        requires
            self.wf(),
            ray.wf(),
        ensures
            r == hit_spec(*self, *ray, t_min as int, t_max as int),
            r matches Some(h) ==> h.wf(),
    {
        let ox = (ray.origin.x as i128) - (self.center.x as i128);
        let oy = (ray.origin.y as i128) - (self.center.y as i128);
        let oz = (ray.origin.z as i128) - (self.center.z as i128);
        let dx = ray.direction.x as i128;
        let dy = ray.direction.y as i128;
        let dz = ray.direction.z as i128;
        proof {
            assert(oc_spec(*self, *ray) == vec_of(ox as int, oy as int, oz as int));
            lemma_mul_abs_bound(dx as int, dx as int, 512_000_000, 512_000_000);
            lemma_mul_abs_bound(dy as int, dy as int, 512_000_000, 512_000_000);
            lemma_mul_abs_bound(dz as int, dz as int, 512_000_000, 512_000_000);
            lemma_mul_abs_bound(ox as int, dx as int, 1_024_000_000, 512_000_000);
            lemma_mul_abs_bound(oy as int, dy as int, 1_024_000_000, 512_000_000);
            lemma_mul_abs_bound(oz as int, dz as int, 1_024_000_000, 512_000_000);
            lemma_mul_abs_bound(ox as int, ox as int, 1_024_000_000, 1_024_000_000);
            lemma_mul_abs_bound(oy as int, oy as int, 1_024_000_000, 1_024_000_000);
            lemma_mul_abs_bound(oz as int, oz as int, 1_024_000_000, 1_024_000_000);
            lemma_mul_abs_bound(self.radius as int, self.radius as int, 512_000_000, 512_000_000);
            assert(0 <= dx * dx && 0 <= dy * dy && 0 <= dz * dz) by (nonlinear_arith);
            assert(0 <= ox * ox && 0 <= oy * oy && 0 <= oz * oz) by (nonlinear_arith);
            assert(0 <= self.radius * self.radius) by (nonlinear_arith);
        }
        let a = dx * dx + dy * dy + dz * dz;
        assert(a == quad_a(*ray));
        if a == 0 {
            return None;
        }
        let b = 2 * (ox * dx + oy * dy + oz * dz);
        let c = ox * ox + oy * oy + oz * oz - (self.radius as i128) * (self.radius as i128);
        proof {
            assert(b == quad_b(*self, *ray));
            assert(c == quad_c(*self, *ray));
            lemma_mul_abs_bound(b as int, b as int, 3_145_728_000_000_000_000, 3_145_728_000_000_000_000);
            lemma_mul_abs_bound(a as int, c as int, 786_432_000_000_000_000, 3_145_728_000_000_000_000);
        }
        let disc = b * b - 4 * (a * c);
        if disc < 0 {
            return None;
        }
        let q = isqrt(disc as u128) as i128;
        proof {
            assert(disc <= 19_791_209_299_968_000_000_000_000_000_000_000_000);
            assert(q <= 4_456_448_000_000_000_000) by (nonlinear_arith)
                requires
                    q * q <= disc,
                    disc <= 19_791_209_299_968_000_000_000_000_000_000_000_000,
                    q >= 0,
            ;
        }
        let den = 2 * a;
        let near = div_floor((ONE as i128) * (-b - q), den);
        let far = div_floor((ONE as i128) * (-b + q), den);
        proof {
            lemma_floor_sqrt_is(q as int, disc as int);
            assert(disc == discriminant(*self, *ray));
            assert(near == near_root(*self, *ray));
            assert(far == far_root(*self, *ray));
        }
        let t: i128 = if (t_min as i128) < near && near < (t_max as i128) {
            near
        } else if (t_min as i128) < far && far < (t_max as i128) {
            far
        } else {
            return None;
        };
        proof {
            lemma_mul_abs_bound(dx as int, t as int, 512_000_000, 0x8000_0000_0000_0000);
            lemma_mul_abs_bound(dy as int, t as int, 512_000_000, 0x8000_0000_0000_0000);
            lemma_mul_abs_bound(dz as int, t as int, 512_000_000, 0x8000_0000_0000_0000);
        }
        let sx = div_floor(dx * t, ONE as i128);
        let sy = div_floor(dy * t, ONE as i128);
        let sz = div_floor(dz * t, ONE as i128);
        proof {
            let k: int = 4_722_366_482_869_645_213_696_000_000;
            lemma_div_bounds(dx * t, -k, k, ONE as int);
            lemma_div_bounds(dy * t, -k, k, ONE as int);
            lemma_div_bounds(dz * t, -k, k, ONE as int);
        }
        let p_x = (ray.origin.x as i128) + sx;
        let p_y = (ray.origin.y as i128) + sy;
        let p_z = (ray.origin.z as i128) + sz;
        let e_x = p_x - (self.center.x as i128);
        let e_y = p_y - (self.center.y as i128);
        let e_z = p_z - (self.center.z as i128);
        proof {
            let k: int = 4_722_366_482_869_645_214_720_000_000;
            lemma_mul_abs_bound(e_x as int, ONE as int, k, ONE as int);
            lemma_mul_abs_bound(e_y as int, ONE as int, k, ONE as int);
            lemma_mul_abs_bound(e_z as int, ONE as int, k, ONE as int);
        }
        let n_x = div_floor(e_x * (ONE as i128), self.radius as i128);
        let n_y = div_floor(e_y * (ONE as i128), self.radius as i128);
        let n_z = div_floor(e_z * (ONE as i128), self.radius as i128);
        proof {
            lemma_root_near_surface(*self, *ray, t as int);
        }
        let rec = HitRecord {
            t: t as i64,
            point: Vec3 { x: p_x as i64, y: p_y as i64, z: p_z as i64 },
            normal: Vec3 { x: n_x as i64, y: n_y as i64, z: n_z as i64 },
            material: self.material,
        };
        proof {
            assert(rec == record_at(*self, *ray, t as int));
        }
        Some(rec)
    }
}

/// `h` when it is a hit strictly before `b`, else nothing.
pub open spec fn before(h: Option<HitRecord>, b: int) -> Option<HitRecord> {
    match h {
        Some(rec) => if rec.t < b {
            h
        } else {
            None
        },
        None => None,
    }
}

/// Every hit that a well-formed sphere reports for a well-formed ray is
/// well formed.
pub proof fn lemma_hit_wf(s: Sphere, ray: Ray, t_min: int, t_max: int)
    requires
        s.wf(),
        ray.wf(),
    ensures
        hit_spec(s, ray, t_min, t_max) matches Some(h) ==> h.wf(),
{
    if let Some(t) = chosen_root(s, ray, t_min, t_max) {
        lemma_root_near_surface(s, ray, t);
    }
}

/// The nearer root never exceeds the farther one.
pub proof fn lemma_roots_ordered(s: Sphere, ray: Ray)
    requires
        quad_a(ray) != 0,
        discriminant(s, ray) >= 0,
    ensures
        near_root(s, ray) <= far_root(s, ray),
{
    let d = ray.direction;
    assert(quad_a(ray) >= 0) by (nonlinear_arith)
        requires
            quad_a(ray) == d.x * d.x + d.y * d.y + d.z * d.z,
    ;
    let q = floor_sqrt(discriminant(s, ray));
    lemma_floor_sqrt_exists(discriminant(s, ray));
    assert(q >= 0);
    lemma_div_is_ordered_int(
        (ONE as int) * (-quad_b(s, ray) - q),
        (ONE as int) * (-quad_b(s, ray) + q),
        2 * quad_a(ray),
    );
}

/// A reported hit lies strictly inside the range that was asked for.
pub proof fn lemma_hit_in_range(s: Sphere, ray: Ray, t_min: i64, t_max: i64)
    ensures
        hit_spec(s, ray, t_min as int, t_max as int) matches Some(rec) ==> t_min < rec.t < t_max
            && rec == record_at(s, ray, rec.t as int),
{
}

/// Shrinking the upper end of the range to `b` keeps a hit found before
/// `b` and drops any other: the nearest hit in the narrower range is the
/// nearest hit in the wider one, when it comes before `b`.
pub proof fn lemma_hit_narrowed(s: Sphere, ray: Ray, t_min: i64, t_max: i64, b: i64)
    requires
        b <= t_max,
    ensures
        hit_spec(s, ray, t_min as int, b as int) == before(
            hit_spec(s, ray, t_min as int, t_max as int),
            b as int,
        ),
{
    if quad_a(ray) != 0 && discriminant(s, ray) >= 0 {
        lemma_roots_ordered(s, ray);
    }
}

/// A ray whose discriminant is negative misses the sphere.
pub proof fn lemma_miss_when_discriminant_negative(s: Sphere, ray: Ray, t_min: i64, t_max: i64)
    requires
        discriminant(s, ray) < 0,
    ensures
        hit_spec(s, ray, t_min as int, t_max as int) == None::<HitRecord>,
{
}

/// A tangent ray (zero discriminant) has a single root, and is reported as
/// one hit at that root whenever the root lies in the range.
pub proof fn lemma_tangent_single_hit(s: Sphere, ray: Ray, t_min: i64, t_max: i64)
    requires
        discriminant(s, ray) == 0,
        quad_a(ray) != 0,
    ensures
        near_root(s, ray) == far_root(s, ray),
        hit_spec(s, ray, t_min as int, t_max as int) == (if t_min < near_root(s, ray) < t_max {
            Some(record_at(s, ray, near_root(s, ray)))
        } else {
            None
        }),
{
    lemma_floor_sqrt_is(0, 0);
}

proof fn lemma_distribute3(k: int, u: int, v: int, w: int)
    ensures
        k * (u + v + w) == k * u + k * v + k * w,
        (u + v + w) * k == u * k + v * k + w * k,
{
    assert(k * (u + v + w) == k * u + k * v + k * w) by (nonlinear_arith);
    assert((u + v + w) * k == u * k + v * k + w * k) by (nonlinear_arith);
}

proof fn lemma_square_of_product(x: int, y: int)
    ensures
        (x * x) * (y * y) == (x * y) * (x * y),
{
    assert((x * x) * (y * y) == (x * y) * (x * y)) by (nonlinear_arith);
}

proof fn lemma_two_products(u: int, v: int)
    ensures
        2 * (u * v) <= u * u + v * v,
{
    assert(0 <= (u - v) * (u - v)) by (nonlinear_arith);
    assert((u - v) * (u - v) == u * u - 2 * (u * v) + v * v) by (nonlinear_arith);
}

proof fn lemma_swap_pairs(a1: int, b1: int, a2: int, b2: int)
    ensures
        (a1 * b1) * (a2 * b2) == (a1 * b2) * (a2 * b1),
{
    assert((a1 * b1) * (a2 * b2) == (a1 * b2) * (a2 * b1)) by (nonlinear_arith);
}

proof fn lemma_square3(u: int, v: int, w: int)
    ensures
        (u + v + w) * (u + v + w) == u * u + v * v + w * w + 2 * (u * v) + 2 * (u * w) + 2 * (v
            * w),
{
    lemma_distribute3(u + v + w, u, v, w);
    lemma_distribute3(u, u, v, w);
    lemma_distribute3(v, u, v, w);
    lemma_distribute3(w, u, v, w);
    assert((u + v + w) * u == u * u + v * u + w * u) by (nonlinear_arith);
    assert((u + v + w) * v == u * v + v * v + w * v) by (nonlinear_arith);
    assert((u + v + w) * w == u * w + v * w + w * w) by (nonlinear_arith);
    assert(v * u == u * v && w * u == u * w && w * v == v * w) by (nonlinear_arith);
}

/// `(sum a_i b_i)^2 <= (sum a_i^2) (sum b_i^2)` in three dimensions.
pub proof fn lemma_cauchy_schwarz(ax: int, ay: int, az: int, bx: int, by: int, bz: int)
    ensures
        (ax * bx + ay * by + az * bz) * (ax * bx + ay * by + az * bz) <= (ax * ax + ay * ay + az
            * az) * (bx * bx + by * by + bz * bz),
{
    let sb = bx * bx + by * by + bz * bz;
    lemma_distribute3(sb, ax * ax, ay * ay, az * az);
    assert((ax * ax + ay * ay + az * az) * sb == sb * (ax * ax) + sb * (ay * ay) + sb * (az * az))
        by (nonlinear_arith)
        requires
            sb * (ax * ax + ay * ay + az * az) == sb * (ax * ax) + sb * (ay * ay) + sb * (az * az),
    ;
    lemma_distribute3(ax * ax, bx * bx, by * by, bz * bz);
    lemma_distribute3(ay * ay, bx * bx, by * by, bz * bz);
    lemma_distribute3(az * az, bx * bx, by * by, bz * bz);
    assert(sb * (ax * ax) == (ax * ax) * sb && sb * (ay * ay) == (ay * ay) * sb && sb * (az * az)
        == (az * az) * sb) by (nonlinear_arith);
    lemma_square_of_product(ax, bx);
    lemma_square_of_product(ax, by);
    lemma_square_of_product(ax, bz);
    lemma_square_of_product(ay, bx);
    lemma_square_of_product(ay, by);
    lemma_square_of_product(ay, bz);
    lemma_square_of_product(az, bx);
    lemma_square_of_product(az, by);
    lemma_square_of_product(az, bz);
    lemma_square3(ax * bx, ay * by, az * bz);
    lemma_swap_pairs(ax, bx, ay, by);
    lemma_swap_pairs(ax, bx, az, bz);
    lemma_swap_pairs(ay, by, az, bz);
    lemma_two_products(ax * by, ay * bx);
    lemma_two_products(ax * bz, az * bx);
    lemma_two_products(ay * bz, az * by);
}

/// One coordinate of `ONE * oc + d * t`, squared.
pub proof fn lemma_offset_square(o: int, d: int, t: int)
    ensures
        (1_000_000 * o + d * t) * (1_000_000 * o + d * t) == 1_000_000_000_000 * (o * o) + 1_000_000
            * t * (2 * (o * d)) + (d * d) * (t * t),
{
    assert((1_000_000 * o + d * t) * (1_000_000 * o + d * t) == 1_000_000_000_000 * (o * o)
        + 1_000_000 * t * (2 * (o * d)) + (d * d) * (t * t)) by (nonlinear_arith);
}

/// The quadratic at `t`, times `4 a`, completed to a square.
pub proof fn lemma_complete_square(a: int, b: int, o2: int, r2: int, t: int, w2: int, m: int)
    requires
        w2 == m * m * o2 + m * t * b + a * (t * t),
    ensures
        4 * a * (w2 - m * m * r2) == (2 * a * t + m * b) * (2 * a * t + m * b) - m * m * (b * b
            - 4 * (a * (o2 - r2))),
{
    let u = 2 * a * t;
    let v = m * b;
    assert((u + v) * (u + v) == u * u + 2 * (u * v) + v * v) by (nonlinear_arith);
    assert(u * u == 4 * a * (a * (t * t))) by (nonlinear_arith)
        requires
            u == 2 * a * t,
    ;
    assert(2 * (u * v) == 4 * a * (m * t * b)) by (nonlinear_arith)
        requires
            u == 2 * a * t,
            v == m * b,
    ;
    assert(v * v == m * m * (b * b)) by (nonlinear_arith)
        requires
            v == m * b,
    ;
    assert(4 * a * (w2 - m * m * r2) == 4 * a * (m * m * o2) + 4 * a * (m * t * b) + 4 * a * (a
        * (t * t)) - 4 * a * (m * m * r2)) by (nonlinear_arith)
        requires
            w2 == m * m * o2 + m * t * b + a * (t * t),
    ;
    assert(m * m * (b * b - 4 * (a * (o2 - r2))) == m * m * (b * b) - 4 * a * (m * m * o2) + 4
        * a * (m * m * r2)) by (nonlinear_arith);
}

/// A coordinate `o + floor(d t / ONE)` whose unrounded value times `ONE`
/// lies within `ONE * k` stays within `k`.
proof fn lemma_rounded_offset(o: int, d: int, t: int, k: int)
    requires
        -(1_000_000 * k) <= 1_000_000 * o + d * t <= 1_000_000 * k,
    ensures
        -k <= o + fx_mul(d, t) <= k,
{
    lemma_fundamental_div_mod(d * t, 1_000_000);
    lemma_mod_pos_bound(d * t, 1_000_000);
}

/// `|ONE * oc + d * t|^2`: the squared distance from the centre of the
/// unrounded point at `t`, at scale `ONE^2`.
pub open spec fn offset_norm(s: Sphere, ray: Ray, t: int) -> int {
    let (ox, oy, oz) = (
        ray.origin.x - s.center.x,
        ray.origin.y - s.center.y,
        ray.origin.z - s.center.z,
    );
    let (wx, wy, wz) = (
        1_000_000 * ox + ray.direction.x * t,
        1_000_000 * oy + ray.direction.y * t,
        1_000_000 * oz + ray.direction.z * t,
    );
    wx * wx + wy * wy + wz * wz
}

/// The point and normal at either root of a well-formed sphere's quadratic
/// stay in range: each coordinate of the point lies within
/// `radius + HIT_SLACK` of the centre (so in the working box), and each
/// component of the normal within twice unit length.
pub proof fn lemma_root_near_surface(s: Sphere, ray: Ray, t: int)
    requires
        s.wf(),
        ray.wf(),
        quad_a(ray) != 0,
        discriminant(s, ray) >= 0,
        t == near_root(s, ray) || t == far_root(s, ray),
    ensures
        -(s.radius + HIT_SLACK) <= px(ray, t) - s.center.x <= s.radius + HIT_SLACK,
        -(s.radius + HIT_SLACK) <= py(ray, t) - s.center.y <= s.radius + HIT_SLACK,
        -(s.radius + HIT_SLACK) <= pz(ray, t) - s.center.z <= s.radius + HIT_SLACK,
        -LIMIT <= px(ray, t) <= LIMIT,
        -LIMIT <= py(ray, t) <= LIMIT,
        -LIMIT <= pz(ray, t) <= LIMIT,
        -2 * ONE <= nx(s, ray, t) <= 2 * ONE,
        -2 * ONE <= ny(s, ray, t) <= 2 * ONE,
        -2 * ONE <= nz(s, ray, t) <= 2 * ONE,
        offset_norm(s, ray, t) <= (1_000_000 * (s.radius + HIT_SLACK)) * (1_000_000 * (s.radius
            + HIT_SLACK)),
{
    let one = 1_000_000int;
    let c = 1_000int;
    let r = s.radius as int;
    let d = ray.direction;
    let (ox, oy, oz) = (
        ray.origin.x - s.center.x,
        ray.origin.y - s.center.y,
        ray.origin.z - s.center.z,
    );
    assert(oc_spec(s, ray) == vec_of(ox, oy, oz));
    let (dx, dy, dz) = (d.x as int, d.y as int, d.z as int);
    let a = quad_a(ray);
    let b = quad_b(s, ray);
    let o2 = ox * ox + oy * oy + oz * oz;
    let hb = ox * dx + oy * dy + oz * dz;
    assert(a == dx * dx + dy * dy + dz * dz);
    assert(b == 2 * hb);
    assert(quad_c(s, ray) == o2 - r * r);
    let disc = discriminant(s, ray);
    assert(disc == b * b - 4 * (a * (o2 - r * r)));
    // The discriminant is at most 4 a r^2.
    lemma_cauchy_schwarz(ox, oy, oz, dx, dy, dz);
    assert(disc <= 4 * a * (r * r)) by (nonlinear_arith)
        requires
            disc == b * b - 4 * (a * (o2 - r * r)),
            b == 2 * hb,
            hb * hb <= o2 * a,
    ;
    assert(1 <= a <= 786_432_000_000_000_000) by (nonlinear_arith)
        requires
            a == dx * dx + dy * dy + dz * dz,
            a != 0,
            -512_000_000 <= dx <= 512_000_000,
            -512_000_000 <= dy <= 512_000_000,
            -512_000_000 <= dz <= 512_000_000,
    ;
    lemma_floor_sqrt_exists(disc);
    let q = floor_sqrt(disc);
    assert(q * q <= disc && q >= 0);
    assert(one * q <= 2_000_000_000_000_000 * r) by (nonlinear_arith)
        requires
            q * q <= 4 * a * (r * r),
            a <= 1_000_000_000_000_000_000,
            q >= 0,
            r >= 1,
            one == 1_000_000,
    ;
    let bnd = 1_000_000_000_000 * (2 * r * c + c * c);
    assert(a <= bnd && one * q + a <= bnd) by (nonlinear_arith)
        requires
            a <= 786_432_000_000_000_000,
            one * q <= 2_000_000_000_000_000 * r,
            bnd == 1_000_000_000_000 * (2 * r * c + c * c),
            c == 1000,
            r >= 1,
    ;
    // y = 2 a t + ONE b lies just below +-ONE q.
    let den = 2 * a;
    let y = 2 * a * t + one * b;
    if t == far_root(s, ray) {
        lemma_fundamental_div_mod(one * (-b + q), den);
        lemma_mod_pos_bound(one * (-b + q), den);
        let rem = (one * (-b + q)) % den;
        assert(one * (-b + q) == den * t + rem);
        assert(y == one * q - rem) by (nonlinear_arith)
            requires
                one * (-b + q) == den * t + rem,
                den == 2 * a,
                y == 2 * a * t + one * b,
        ;
        if y >= 0 {
            assert(y * y <= (one * q) * (one * q)) by (nonlinear_arith)
                requires
                    0 <= y <= one * q,
            ;
        } else {
            assert(y * y <= 4 * a * bnd) by (nonlinear_arith)
                requires
                    -2 * a < y < 0,
                    a <= bnd,
                    a >= 1,
            ;
        }
    } else {
        lemma_fundamental_div_mod(one * (-b - q), den);
        lemma_mod_pos_bound(one * (-b - q), den);
        let rem = (one * (-b - q)) % den;
        assert(one * (-b - q) == den * t + rem);
        assert(y == -(one * q) - rem) by (nonlinear_arith)
            requires
                one * (-b - q) == den * t + rem,
                den == 2 * a,
                y == 2 * a * t + one * b,
        ;
        assert(y * y <= (one * q) * (one * q) + 4 * a * (one * q + a)) by (nonlinear_arith)
            requires
                y == -(one * q) - rem,
                0 <= rem < 2 * a,
                q >= 0,
                one > 0,
        ;
        assert(4 * a * (one * q + a) <= 4 * a * bnd) by (nonlinear_arith)
            requires
                one * q + a <= bnd,
                a >= 1,
        ;
    }
    assert((one * q) * (one * q) <= 1_000_000_000_000 * disc) by (nonlinear_arith)
        requires
            q * q <= disc,
            one == 1_000_000,
    ;
    assert(y * y <= 1_000_000_000_000 * disc + 4 * a * bnd);
    // Hence |ONE * oc + d t|^2 <= ONE^2 (r + c)^2.
    lemma_offset_square(ox, dx, t);
    lemma_offset_square(oy, dy, t);
    lemma_offset_square(oz, dz, t);
    let (wx, wy, wz) = (one * ox + dx * t, one * oy + dy * t, one * oz + dz * t);
    let w2 = wx * wx + wy * wy + wz * wz;
    assert(w2 == 1_000_000_000_000 * o2 + 1_000_000 * t * b + a * (t * t)) by (nonlinear_arith)
        requires
            wx * wx == 1_000_000_000_000 * (ox * ox) + 1_000_000 * t * (2 * (ox * dx)) + (dx
                * dx) * (t * t),
            wy * wy == 1_000_000_000_000 * (oy * oy) + 1_000_000 * t * (2 * (oy * dy)) + (dy
                * dy) * (t * t),
            wz * wz == 1_000_000_000_000 * (oz * oz) + 1_000_000 * t * (2 * (oz * dz)) + (dz
                * dz) * (t * t),
            w2 == wx * wx + wy * wy + wz * wz,
            o2 == ox * ox + oy * oy + oz * oz,
            b == 2 * (ox * dx + oy * dy + oz * dz),
            a == dx * dx + dy * dy + dz * dz,
    ;
    assert(1_000_000 * 1_000_000 == 1_000_000_000_000);
    lemma_complete_square(a, b, o2, r * r, t, w2, 1_000_000);
    let k = one * (r + c);
    assert(w2 <= k * k) by (nonlinear_arith)
        requires
            4 * a * (w2 - 1_000_000_000_000 * (r * r)) == y * y - 1_000_000_000_000 * (b * b - 4
                * (a * (o2 - r * r))),
            disc == b * b - 4 * (a * (o2 - r * r)),
            y * y <= 1_000_000_000_000 * disc + 4 * a * bnd,
            bnd == 1_000_000_000_000 * (2 * r * c + c * c),
            k == one * (r + c),
            one == 1_000_000,
            a >= 1,
    ;
    assert(wx * wx <= k * k && wy * wy <= k * k && wz * wz <= k * k) by (nonlinear_arith)
        requires
            w2 == wx * wx + wy * wy + wz * wz,
            w2 <= k * k,
    ;
    lemma_sq_le(wx, k);
    lemma_sq_le(wy, k);
    lemma_sq_le(wz, k);
    lemma_rounded_offset(ox, dx, t, r + c);
    lemma_rounded_offset(oy, dy, t, r + c);
    lemma_rounded_offset(oz, dz, t, r + c);
    let (ex, ey, ez) = (px(ray, t) - s.center.x, py(ray, t) - s.center.y, pz(ray, t) - s.center.z);
    lemma_div_bounds(ex * one, -2 * one, 2 * one, r);
    lemma_div_bounds(ey * one, -2 * one, 2 * one, r);
    lemma_div_bounds(ez * one, -2 * one, 2 * one, r);
}

} // verus!
