//! Three-component fixed-point vectors, used for points, directions and colours.
use crate::fixed::{
    div_fixed, div_floor, fits_i64, is_floor_sqrt, lemma_fundamental_div_mod, lemma_mod_pos_bound, floor_sqrt, fx_div, fx_mul, isqrt, lemma_div_bounds,
    lemma_mul_abs_bound, mul_fixed, LIMIT, ONE,
};
use vstd::prelude::*;

verus! {

/// A vector whose components are fixed-point scalars (see `fixed::ONE`).
#[derive(Clone, Copy, Debug, PartialEq, Eq, Structural)]
pub struct Vec3 {
    pub x: i64,
    pub y: i64,
    pub z: i64,
}

/// Every component of `v` lies in `[-k, k]`.
pub open spec fn in_box(v: Vec3, k: int) -> bool {
    -k <= v.x <= k && -k <= v.y <= k && -k <= v.z <= k
}

/// A colour whose channels lie in `[0, ONE]`.
pub open spec fn is_colour(c: Vec3) -> bool {
    0 <= c.x <= ONE && 0 <= c.y <= ONE && 0 <= c.z <= ONE
}

/// The exact dot product, at the squared scale `ONE * ONE`.
pub open spec fn dot_raw(a: Vec3, b: Vec3) -> int {
    a.x * b.x + a.y * b.y + a.z * b.z
}

/// The dot product as a fixed-point scalar, rounded down.
pub open spec fn dot_spec(a: Vec3, b: Vec3) -> int {
    dot_raw(a, b) / (ONE as int)
}

/// The length of `v` as a fixed-point scalar, rounded down.
pub open spec fn length_spec(v: Vec3) -> int {
    floor_sqrt(dot_raw(v, v))
}

/// Builds a vector from three integers that are known to fit.
pub open spec fn vec_of(x: int, y: int, z: int) -> Vec3 {
    Vec3 { x: x as i64, y: y as i64, z: z as i64 }
}

/// `v` divided by its length, each component rounded down; the zero vector
/// stays zero.
pub open spec fn unit_spec(v: Vec3) -> Vec3 {
    let len = length_spec(v);
    if len == 0 {
        v
    } else {
        vec_of(fx_div(v.x as int, len), fx_div(v.y as int, len), fx_div(v.z as int, len))
    }
}

/// `v` scaled by the scalar `s`, each component rounded down.
pub open spec fn scale_spec(v: Vec3, s: int) -> Vec3 {
    vec_of(fx_mul(v.x as int, s), fx_mul(v.y as int, s), fx_mul(v.z as int, s))
}

/// `v - n * (2 * dot(v, n))`.
pub open spec fn reflect_spec(v: Vec3, n: Vec3) -> Vec3 {
    let k = 2 * dot_spec(v, n);
    vec_of(
        v.x - fx_mul(n.x as int, k),
        v.y - fx_mul(n.y as int, k),
        v.z - fx_mul(n.z as int, k),
    )
}

/// The component-wise product of two colours, each rounded down.
pub open spec fn modulate_spec(a: Vec3, b: Vec3) -> Vec3 {
    vec_of(fx_mul(a.x as int, b.x as int), fx_mul(a.y as int, b.y as int), fx_mul(a.z as int, b.z as int))
}

/// Bounds on the products of a dot product from bounds on the components.
proof fn lemma_dot_raw_bound(a: Vec3, b: Vec3, ka: int, kb: int)
    requires
        in_box(a, ka),
        in_box(b, kb),
    ensures
        -(ka * kb) <= a.x * b.x <= ka * kb,
        -(ka * kb) <= a.y * b.y <= ka * kb,
        -(ka * kb) <= a.z * b.z <= ka * kb,
        -3 * (ka * kb) <= dot_raw(a, b) <= 3 * (ka * kb),
{
    lemma_mul_abs_bound(a.x as int, b.x as int, ka, kb);
    lemma_mul_abs_bound(a.y as int, b.y as int, ka, kb);
    lemma_mul_abs_bound(a.z as int, b.z as int, ka, kb);
}

/// A component divided by the length, as `unit_spec` does, lies in `[-ONE, ONE]`.
proof fn lemma_unit_component(c: int, len: int, sq: int)
    requires
        len > 0,
        c * c <= sq,
        sq < (len + 1) * (len + 1),
    ensures
        -(ONE as int) <= fx_div(c, len) <= ONE as int,
{
    assert(-len <= c <= len) by (nonlinear_arith)
        requires
            len > 0,
            c * c <= sq,
            sq < (len + 1) * (len + 1),
    ;
    assert(-(ONE as int) * len <= c * (ONE as int) <= (ONE as int) * len) by (nonlinear_arith)
        requires
            -len <= c <= len,
    ;
    lemma_div_bounds(c * (ONE as int), -(ONE as int), ONE as int, len);
}

/// One component of the reflection, times `ONE`, against the normal.
proof fn lemma_reflect_term(v: int, n: int, k: int, m: int, e: int, r: int)
    requires
        (ONE as int) * m == n * k - e,
        r == v - m,
    ensures
        (ONE as int) * (r * n) == (ONE as int) * (v * n) - k * (n * n) + e * n,
{
    assert((ONE as int) * (r * n) == (ONE as int) * (v * n) - k * (n * n) + e * n)
        by (nonlinear_arith)
        requires
            (ONE as int) * m == n * k - e,
            r == v - m,
    ;
}

/// A component of a unit vector, and its product with a rounding error in
/// `[0, ONE)`, stay within one unit.
proof fn lemma_unit_error(n: int, e: int, sq: int)
    requires
        n * n <= sq,
        sq == (ONE as int) * (ONE as int),
        0 <= e < ONE,
    ensures
        -(ONE as int) * (ONE as int) <= e * n <= (ONE as int) * (ONE as int),
{
    let one = ONE as int;
    assert(-one <= n <= one) by (nonlinear_arith)
        requires
            n * n <= one * one,
            one > 0,
    ;
    lemma_mul_abs_bound(e, n, one, one);
}

/// Reflecting `v` about a unit normal `n` negates the component of `v`
/// along `n`: `dot(reflect(v, n), n) == -dot(v, n)`, up to three units of
/// the last place from rounding.
pub proof fn lemma_reflect_negates_normal_component(v: Vec3, n: Vec3)
    requires
        in_box(v, LIMIT as int),
        dot_raw(n, n) == (ONE as int) * (ONE as int),
    ensures
        -3 <= dot_spec(reflect_spec(v, n), n) + dot_spec(v, n) <= 3,
{
    let one = ONE as int;
    let d = dot_spec(v, n);
    let k = 2 * d;
    let big = dot_raw(v, n);
    lemma_fundamental_div_mod(big, one);
    lemma_mod_pos_bound(big, one);
    let delta = big % one;
    assert(big == one * d + delta);
    let mx = fx_mul(n.x as int, k);
    let my = fx_mul(n.y as int, k);
    let mz = fx_mul(n.z as int, k);
    lemma_fundamental_div_mod(n.x * k, one);
    lemma_fundamental_div_mod(n.y * k, one);
    lemma_fundamental_div_mod(n.z * k, one);
    lemma_mod_pos_bound(n.x * k, one);
    lemma_mod_pos_bound(n.y * k, one);
    lemma_mod_pos_bound(n.z * k, one);
    let ex = (n.x * k) % one;
    let ey = (n.y * k) % one;
    let ez = (n.z * k) % one;
    let sq = dot_raw(n, n);
    assert(n.x * n.x <= sq && n.y * n.y <= sq && n.z * n.z <= sq) by (nonlinear_arith)
        requires
            sq == n.x * n.x + n.y * n.y + n.z * n.z,
    ;
    lemma_unit_error(n.x as int, ex, sq);
    lemma_unit_error(n.y as int, ey, sq);
    lemma_unit_error(n.z as int, ez, sq);
    assert(-one <= n.x <= one && -one <= n.y <= one && -one <= n.z <= one) by (nonlinear_arith)
        requires
            n.x * n.x <= one * one,
            n.y * n.y <= one * one,
            n.z * n.z <= one * one,
            one > 0,
    ;
    lemma_dot_raw_bound(v, n, LIMIT as int, one);
    lemma_div_bounds(big, -3 * (LIMIT as int), 3 * (LIMIT as int), one);
    lemma_mul_abs_bound(n.x as int, k, one, 6 * (LIMIT as int));
    lemma_mul_abs_bound(n.y as int, k, one, 6 * (LIMIT as int));
    lemma_mul_abs_bound(n.z as int, k, one, 6 * (LIMIT as int));
    lemma_div_bounds(n.x * k, -6 * (LIMIT as int), 6 * (LIMIT as int), one);
    lemma_div_bounds(n.y * k, -6 * (LIMIT as int), 6 * (LIMIT as int), one);
    lemma_div_bounds(n.z * k, -6 * (LIMIT as int), 6 * (LIMIT as int), one);
    let r = reflect_spec(v, n);
    assert(r.x == v.x - mx && r.y == v.y - my && r.z == v.z - mz);
    lemma_reflect_term(v.x as int, n.x as int, k, mx, ex, r.x as int);
    lemma_reflect_term(v.y as int, n.y as int, k, my, ey, r.y as int);
    lemma_reflect_term(v.z as int, n.z as int, k, mz, ez, r.z as int);
    let s = dot_raw(r, n);
    let e = ex * n.x + ey * n.y + ez * n.z;
    assert(k * (n.x * n.x) + k * (n.y * n.y) + k * (n.z * n.z) == k * sq) by (nonlinear_arith)
        requires
            sq == n.x * n.x + n.y * n.y + n.z * n.z,
    ;
    assert(one * s == one * big - k * sq + e);
    assert(-d * one - 3 * one <= s <= -d * one + 4 * one - 1) by (nonlinear_arith)
        requires
            one * s == one * big - k * sq + e,
            sq == one * one,
            k == 2 * d,
            big == one * d + delta,
            0 <= delta < one,
            -3 * (one * one) <= e <= 3 * (one * one),
            one == 1_000_000,
    ;
    lemma_fundamental_div_mod(s, one);
    lemma_mod_pos_bound(s, one);
}

/// Reflecting `v` about a normal `n` that is only close to unit length
/// negates the component of `v` along `n` up to the exact effect of the
/// length error `eps = n.n - 1`: `dot(reflect(v, n), n) + dot(v, n) + 2
/// dot(v, n) eps` is within seven units of the last place. Every normal of a
/// reported hit has components within two units, as asked here.
pub proof fn lemma_reflect_negates_normal_component_approx(v: Vec3, n: Vec3)
    requires
        in_box(v, LIMIT as int),
        in_box(n, 2 * ONE),
    ensures
        -7 * (ONE * ONE) <= (ONE * ONE) * (dot_spec(reflect_spec(v, n), n) + dot_spec(v, n)) + 2
            * dot_spec(v, n) * (dot_raw(n, n) - ONE * ONE) <= 7 * (ONE * ONE),
{
    let one = ONE as int;
    let d = dot_spec(v, n);
    let k = 2 * d;
    let big = dot_raw(v, n);
    lemma_fundamental_div_mod(big, one);
    lemma_mod_pos_bound(big, one);
    let delta = big % one;
    assert(big == one * d + delta);
    let mx = fx_mul(n.x as int, k);
    let my = fx_mul(n.y as int, k);
    let mz = fx_mul(n.z as int, k);
    lemma_fundamental_div_mod(n.x * k, one);
    lemma_fundamental_div_mod(n.y * k, one);
    lemma_fundamental_div_mod(n.z * k, one);
    lemma_mod_pos_bound(n.x * k, one);
    lemma_mod_pos_bound(n.y * k, one);
    lemma_mod_pos_bound(n.z * k, one);
    let ex = (n.x * k) % one;
    let ey = (n.y * k) % one;
    let ez = (n.z * k) % one;
    lemma_mul_abs_bound(ex, n.x as int, one, 2 * one);
    lemma_mul_abs_bound(ey, n.y as int, one, 2 * one);
    lemma_mul_abs_bound(ez, n.z as int, one, 2 * one);
    let sq = dot_raw(n, n);
    lemma_dot_raw_bound(v, n, LIMIT as int, 2 * one);
    lemma_div_bounds(big, -6 * (LIMIT as int), 6 * (LIMIT as int), one);
    lemma_mul_abs_bound(n.x as int, k, 2 * one, 12 * (LIMIT as int));
    lemma_mul_abs_bound(n.y as int, k, 2 * one, 12 * (LIMIT as int));
    lemma_mul_abs_bound(n.z as int, k, 2 * one, 12 * (LIMIT as int));
    lemma_div_bounds(n.x * k, -24 * (LIMIT as int), 24 * (LIMIT as int), one);
    lemma_div_bounds(n.y * k, -24 * (LIMIT as int), 24 * (LIMIT as int), one);
    lemma_div_bounds(n.z * k, -24 * (LIMIT as int), 24 * (LIMIT as int), one);
    let r = reflect_spec(v, n);
    assert(r.x == v.x - mx && r.y == v.y - my && r.z == v.z - mz);
    lemma_reflect_term(v.x as int, n.x as int, k, mx, ex, r.x as int);
    lemma_reflect_term(v.y as int, n.y as int, k, my, ey, r.y as int);
    lemma_reflect_term(v.z as int, n.z as int, k, mz, ez, r.z as int);
    let s = dot_raw(r, n);
    let e = ex * n.x + ey * n.y + ez * n.z;
    assert(k * (n.x * n.x) + k * (n.y * n.y) + k * (n.z * n.z) == k * sq) by (nonlinear_arith)
        requires
            sq == n.x * n.x + n.y * n.y + n.z * n.z,
    ;
    assert(one * s == one * big - k * sq + e);
    lemma_fundamental_div_mod(s, one);
    lemma_mod_pos_bound(s, one);
    let q = s / one;
    let rr = s % one;
    let eps = sq - one * one;
    assert(k * sq == k * (one * one) + k * eps) by (nonlinear_arith)
        requires
            eps == sq - one * one,
    ;
    assert(one * one * (q + d) + 2 * d * eps == one * (delta - rr) + e) by (nonlinear_arith)
        requires
            one * s == one * big - k * sq + e,
            k * sq == k * (one * one) + k * eps,
            s == one * q + rr,
            big == one * d + delta,
            k == 2 * d,
    ;
    assert(-7 * (one * one) <= one * (delta - rr) + e <= 7 * (one * one)) by (nonlinear_arith)
        requires
            0 <= delta < one,
            0 <= rr < one,
            -6 * (one * one) <= e <= 6 * (one * one),
            one == 1_000_000,
    ;
}

impl Vec3 {
    pub fn new(x: i64, y: i64, z: i64) -> (r: Vec3)
        ensures
            r == (Vec3 { x, y, z }),
    {
        Vec3 { x, y, z }
    }

    /// Whether every component lies in `[-k, k]`.
    pub fn within(&self, k: i64) -> (r: bool)
        requires
            k >= 0,
        ensures
            r == in_box(*self, k as int),
    {
        -k <= self.x && self.x <= k && -k <= self.y && self.y <= k && -k <= self.z && self.z <= k
    }

    /// Whether every channel lies in `[0, ONE]`.
    pub fn is_colour(&self) -> (r: bool)
        ensures
            r == is_colour(*self),
    {
        0 <= self.x && self.x <= ONE && 0 <= self.y && self.y <= ONE && 0 <= self.z && self.z <= ONE
    }

    pub fn x(&self) -> (r: i64)
        ensures
            r == self.x,
    {
        self.x
    }

    pub fn y(&self) -> (r: i64)
        ensures
            r == self.y,
    {
        self.y
    }

    pub fn z(&self) -> (r: i64)
        ensures
            r == self.z,
    {
        self.z
    }

    /// The red channel of a colour.
    pub fn r(&self) -> (r: i64)
        ensures
            r == self.x,
    {
        self.x
    }

    /// The green channel of a colour.
    pub fn g(&self) -> (r: i64)
        ensures
            r == self.y,
    {
        self.y
    }

    /// The blue channel of a colour.
    pub fn b(&self) -> (r: i64)
        ensures
            r == self.z,
    {
        self.z
    }

    pub fn add(&self, o: &Vec3) -> (r: Vec3)
        requires
            fits_i64(self.x + o.x),
            fits_i64(self.y + o.y),
            fits_i64(self.z + o.z),
        ensures
            r == vec_of(self.x + o.x, self.y + o.y, self.z + o.z),
    {
        Vec3 { x: self.x + o.x, y: self.y + o.y, z: self.z + o.z }
    }

    pub fn sub(&self, o: &Vec3) -> (r: Vec3)
        requires
            fits_i64(self.x - o.x),
            fits_i64(self.y - o.y),
            fits_i64(self.z - o.z),
        ensures
            r == vec_of(self.x - o.x, self.y - o.y, self.z - o.z),
    {
        Vec3 { x: self.x - o.x, y: self.y - o.y, z: self.z - o.z }
    }

    pub fn neg(&self) -> (r: Vec3)
        requires
            self.x > i64::MIN,
            self.y > i64::MIN,
            self.z > i64::MIN,
        ensures
            r == vec_of(-self.x, -self.y, -self.z),
    {
        Vec3 { x: -self.x, y: -self.y, z: -self.z }
    }

    /// Scales by the fixed-point scalar `s`.
    pub fn mul(&self, s: i64) -> (r: Vec3)
        requires
            fits_i64(fx_mul(self.x as int, s as int)),
            fits_i64(fx_mul(self.y as int, s as int)),
            fits_i64(fx_mul(self.z as int, s as int)),
        ensures
            r == scale_spec(*self, s as int),
    {
        Vec3 { x: mul_fixed(self.x, s), y: mul_fixed(self.y, s), z: mul_fixed(self.z, s) }
    }

    /// Divides by the positive fixed-point scalar `s`.
    pub fn div(&self, s: i64) -> (r: Vec3)
        requires
            s > 0,
            fits_i64(fx_div(self.x as int, s as int)),
            fits_i64(fx_div(self.y as int, s as int)),
            fits_i64(fx_div(self.z as int, s as int)),
        ensures
            r == vec_of(
                fx_div(self.x as int, s as int),
                fx_div(self.y as int, s as int),
                fx_div(self.z as int, s as int),
            ),
    {
        Vec3 { x: div_fixed(self.x, s), y: div_fixed(self.y, s), z: div_fixed(self.z, s) }
    }

    /// Component-wise product of two colours.
    pub fn modulate(&self, o: &Vec3) -> (r: Vec3)
        requires
            in_box(*self, ONE as int),
            in_box(*o, ONE as int),
        ensures
            r == modulate_spec(*self, *o),
            in_box(r, ONE as int),
            is_colour(*self) && is_colour(*o) ==> is_colour(r),
    {
        proof {
            if is_colour(*self) && is_colour(*o) {
                assert(0 <= self.x * o.x && 0 <= self.y * o.y && 0 <= self.z * o.z)
                    by (nonlinear_arith)
                    requires
                        is_colour(*self),
                        is_colour(*o),
                ;
            }
            lemma_mul_abs_bound(self.x as int, o.x as int, ONE as int, ONE as int);
            lemma_mul_abs_bound(self.y as int, o.y as int, ONE as int, ONE as int);
            lemma_mul_abs_bound(self.z as int, o.z as int, ONE as int, ONE as int);
        }
        Vec3 { x: mul_fixed(self.x, o.x), y: mul_fixed(self.y, o.y), z: mul_fixed(self.z, o.z) }
    }

    pub fn dot(&self, o: &Vec3) -> (r: i64)
        requires
            in_box(*self, LIMIT as int),
            in_box(*o, LIMIT as int),
        ensures
            r == dot_spec(*self, *o),
    {
        proof {
            lemma_dot_raw_bound(*self, *o, LIMIT as int, LIMIT as int);
        }
        let s = (self.x as i128) * (o.x as i128) + (self.y as i128) * (o.y as i128) + (
        self.z as i128) * (o.z as i128);
        div_floor(s, ONE as i128) as i64
    }

    /// The squared length, at the squared scale `ONE * ONE`.
    pub fn squared_length(&self) -> (r: i128)
        requires
            in_box(*self, LIMIT as int),
        ensures
            r == dot_raw(*self, *self),
            0 <= r <= 3 * (LIMIT * LIMIT),
    {
        proof {
            lemma_dot_raw_bound(*self, *self, LIMIT as int, LIMIT as int);
            assert(0 <= dot_raw(*self, *self)) by (nonlinear_arith);
        }
        (self.x as i128) * (self.x as i128) + (self.y as i128) * (self.y as i128) + (
        self.z as i128) * (self.z as i128)
    }

    /// The length as a fixed-point scalar, rounded down.
    pub fn length(&self) -> (r: i64)
        requires
            in_box(*self, LIMIT as int),
        ensures
            r == length_spec(*self),
            is_floor_sqrt(r as int, dot_raw(*self, *self)),
    {
        let sq = self.squared_length();
        let l = isqrt(sq as u128);
        proof {
            assert(l <= 0x4000_0000) by (nonlinear_arith)
                requires
                    l * l <= sq,
                    sq <= 3 * (LIMIT * LIMIT),
                    l >= 0,
            ;
        }
        l as i64
    }

    /// This vector divided by its length. A zero vector has no direction and
    /// is returned unchanged.
    pub fn unit_vector(&self) -> (r: Vec3)
        requires
            in_box(*self, LIMIT as int),
        ensures
            r == unit_spec(*self),
            in_box(r, ONE as int),
    {
        let len = self.length();
        if len == 0 {
            proof {
                let sq = dot_raw(*self, *self);
                assert((len + 1) * (len + 1) == 1) by (nonlinear_arith)
                    requires
                        len == 0,
                ;
                assert(self.x == 0 && self.y == 0 && self.z == 0) by (nonlinear_arith)
                    requires
                        sq == self.x * self.x + self.y * self.y + self.z * self.z,
                        sq < 1,
                ;
            }
            *self
        } else {
            proof {
                let sq = dot_raw(*self, *self);
                assert(self.x * self.x <= sq && self.y * self.y <= sq && self.z * self.z <= sq)
                    by (nonlinear_arith)
                    requires
                        sq == self.x * self.x + self.y * self.y + self.z * self.z,
                ;
                lemma_unit_component(self.x as int, len as int, sq);
                lemma_unit_component(self.y as int, len as int, sq);
                lemma_unit_component(self.z as int, len as int, sq);
            }
            Vec3 {
                x: div_fixed(self.x, len),
                y: div_fixed(self.y, len),
                z: div_fixed(self.z, len),
            }
        }
    }

    /// Reflects this direction about the normal `n`: `v - n * (2 * dot(v, n))`.
    pub fn reflect(&self, n: &Vec3) -> (r: Vec3)
        requires
            in_box(*self, LIMIT as int),
            in_box(*n, LIMIT as int),
        ensures
            r == reflect_spec(*self, *n),
    {
        let d = self.dot(n);
        proof {
            lemma_dot_raw_bound(*self, *n, LIMIT as int, LIMIT as int);
            lemma_div_bounds(dot_raw(*self, *n), -800_000_000_000, 800_000_000_000, ONE as int);
        }
        let k = 2 * d;
        proof {
            lemma_mul_abs_bound(n.x as int, k as int, LIMIT as int, 1_600_000_000_000);
            lemma_mul_abs_bound(n.y as int, k as int, LIMIT as int, 1_600_000_000_000);
            lemma_mul_abs_bound(n.z as int, k as int, LIMIT as int, 1_600_000_000_000);
        }
        let m = Vec3 { x: mul_fixed(n.x, k), y: mul_fixed(n.y, k), z: mul_fixed(n.z, k) };
        Vec3 { x: self.x - m.x, y: self.y - m.y, z: self.z - m.z }
    }
}

} // verus!
