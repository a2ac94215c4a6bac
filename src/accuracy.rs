//! How closely the points that the sphere test reports lie on the sphere.
use crate::fixed::{
    floor_sqrt, fx_mul, lemma_floor_sqrt_exists, lemma_sq_le, lemma_fundamental_div_mod, lemma_mod_pos_bound, LIMIT, ONE,
};
use crate::ray::Ray;
use crate::sphere::{
    discriminant, far_root, lemma_cauchy_schwarz, lemma_root_near_surface, lemma_complete_square, lemma_offset_square,
    near_root, oc_spec, offset_norm, px, py, pz, quad_a, quad_b, quad_c, Sphere,
};
use crate::vec3::{in_box, vec_of, Vec3};
use vstd::prelude::*;

verus! {

/// The squared distance from the origin of the point of `ray` at `t`.
pub open spec fn dist_sq(ray: Ray, t: int) -> int {
    px(ray, t) * px(ray, t) + py(ray, t) * py(ray, t) + pz(ray, t) * pz(ray, t)
}

/// From `(q + 1)^2 > 4 a r^2`, a value `ONE (q + 1) - k` with a small
/// enough `k` still squares to at least `4 a ONE^2 (r - 8)^2`.
proof fn lemma_scaled_root_lower(a: int, s: int, q: int, r: int, k: int)
    requires
        1 <= s,
        s * s <= a,
        1 <= a,
        0 <= k <= 16_000_000 * s,
        1_000_000 * (q + 1) - k >= 0,
        (q + 1) * (q + 1) > 4 * a * (r * r),
        r >= 8,
    ensures
        (1_000_000 * (q + 1) - k) * (1_000_000 * (q + 1) - k) >= 4 * a * (1_000_000 * 1_000_000)
            * ((r - 8) * (r - 8)),
{
    let m = 1_000_000 * (q + 1) - k;
    let l = 2_000_000 * (r - 8);
    let c = 16_000_000int;
    if m * m < a * (l * l) {
        assert(k * k <= a * (c * c)) by (nonlinear_arith)
            requires
                0 <= k <= c * s,
                s * s <= a,
                1 <= s,
                c > 0,
        ;
        assert((m * k) * (m * k) <= (c * a * l) * (c * a * l)) by (nonlinear_arith)
            requires
                m * m < a * (l * l),
                k * k <= a * (c * c),
                m >= 0,
                k >= 0,
        ;
        assert(0 <= c * a * l) by (nonlinear_arith)
            requires
                c > 0,
                a >= 1,
                l >= 0,
        ;
        assert(0 <= m * k) by (nonlinear_arith)
            requires
                m >= 0,
                k >= 0,
        ;
        lemma_sq_le(m * k, c * a * l);
        assert((m + k) * (m + k) < a * ((l + c) * (l + c))) by (nonlinear_arith)
            requires
                m * m < a * (l * l),
                k * k <= a * (c * c),
                m * k <= c * a * l,
        ;
        assert(false) by (nonlinear_arith)
            requires
                (m + k) * (m + k) < a * ((l + c) * (l + c)),
                m + k == 1_000_000 * (q + 1),
                l + c == 2_000_000 * r,
                (q + 1) * (q + 1) > 4 * a * (r * r),
        ;
    }
    assert(m * m >= 4 * a * (1_000_000 * 1_000_000) * ((r - 8) * (r - 8))) by (nonlinear_arith)
        requires
            m * m >= a * (l * l),
            l == 2_000_000 * (r - 8),
    ;
}

proof fn lemma_rounding_square(u: int, p: int, e: int)
    requires
        u == 1_000_000 * p + e,
    ensures
        1_000_000 * 1_000_000 * (p * p) == u * u - 2 * (e * u) + e * e,
{
    assert(1_000_000 * 1_000_000 * (p * p) == u * u - 2 * (e * u) + e * e) by (nonlinear_arith)
        requires
            u == 1_000_000 * p + e,
    ;
}

/// `4 a^2 u^2` against `4 a x`, divided by `4 a`.
proof fn lemma_divide_by_4a(a: int, u: int, x: int)
    requires
        a >= 1,
    ensures
        (2 * a * u) * (2 * a * u) <= 4 * a * x ==> a * (u * u) <= x,
        (2 * a * u) * (2 * a * u) >= 4 * a * x ==> a * (u * u) >= x,
{
    assert((2 * a * u) * (2 * a * u) == (4 * a) * (a * (u * u))) by (nonlinear_arith);
    if (2 * a * u) * (2 * a * u) <= 4 * a * x {
        assert(a * (u * u) <= x) by (nonlinear_arith)
            requires
                (4 * a) * (a * (u * u)) <= 4 * a * x,
                a >= 1,
        ;
    }
    if (2 * a * u) * (2 * a * u) >= 4 * a * x {
        assert(a * (u * u) >= x) by (nonlinear_arith)
            requires
                (4 * a) * (a * (u * u)) >= 4 * a * x,
                a >= 1,
        ;
    }
}

/// The points of a ray whose scaled parameter satisfies
/// `ONE^2 (r - 8)^2 <= a t^2 <= ONE^2 (r + 2)^2` lie within `[r - 12, r + 5]`
/// of the origin, once each coordinate is rounded down.
proof fn lemma_rounded_point(ray: Ray, t: int, r: int)
    requires
        ray.origin == (Vec3 { x: 0, y: 0, z: 0 }),
        r >= 50,
        1_000_000 * 1_000_000 * ((r - 8) * (r - 8)) <= quad_a(ray) * (t * t),
        quad_a(ray) * (t * t) <= 1_000_000 * 1_000_000 * ((r + 2) * (r + 2)),
    ensures
        (r - 12) * (r - 12) <= dist_sq(ray, t) <= (r + 5) * (r + 5),
{
    let one = 1_000_000int;
    let d = ray.direction;
    let a = quad_a(ray);
    let (dx, dy, dz) = (d.x as int, d.y as int, d.z as int);
    let (ux, uy, uz) = (dx * t, dy * t, dz * t);
    assert(ux * ux == (dx * dx) * (t * t)) by (nonlinear_arith)
        requires
            ux == dx * t,
    ;
    assert(uy * uy == (dy * dy) * (t * t)) by (nonlinear_arith)
        requires
            uy == dy * t,
    ;
    assert(uz * uz == (dz * dz) * (t * t)) by (nonlinear_arith)
        requires
            uz == dz * t,
    ;
    assert(a * (t * t) == (dx * dx) * (t * t) + (dy * dy) * (t * t) + (dz * dz) * (t * t))
        by (nonlinear_arith)
        requires
            a == dx * dx + dy * dy + dz * dz,
    ;
    let bound = one * (r + 2);
    assert(bound * bound == one * one * ((r + 2) * (r + 2))) by (nonlinear_arith)
        requires
            bound == one * (r + 2),
    ;
    assert(ux * ux <= bound * bound && uy * uy <= bound * bound && uz * uz <= bound * bound)
        by (nonlinear_arith)
        requires
            ux * ux + uy * uy + uz * uz <= bound * bound,
    ;
    lemma_sq_le(ux, bound);
    lemma_sq_le(uy, bound);
    lemma_sq_le(uz, bound);
    lemma_fundamental_div_mod(ux, one);
    lemma_fundamental_div_mod(uy, one);
    lemma_fundamental_div_mod(uz, one);
    lemma_mod_pos_bound(ux, one);
    lemma_mod_pos_bound(uy, one);
    lemma_mod_pos_bound(uz, one);
    let (pxv, pyv, pzv) = (ux / one, uy / one, uz / one);
    let (ex, ey, ez) = (ux % one, uy % one, uz % one);
    assert(px(ray, t) == pxv && py(ray, t) == pyv && pz(ray, t) == pzv);
    assert(-bound * one <= ex * ux <= bound * one) by (nonlinear_arith)
        requires
            0 <= ex < one,
            -bound <= ux <= bound,
            bound >= 0,
            one > 0,
    ;
    assert(-bound * one <= ey * uy <= bound * one) by (nonlinear_arith)
        requires
            0 <= ey < one,
            -bound <= uy <= bound,
            bound >= 0,
            one > 0,
    ;
    assert(-bound * one <= ez * uz <= bound * one) by (nonlinear_arith)
        requires
            0 <= ez < one,
            -bound <= uz <= bound,
            bound >= 0,
            one > 0,
    ;
    assert(0 <= ex * ex <= one * one && 0 <= ey * ey <= one * one && 0 <= ez * ez <= one * one)
        by (nonlinear_arith)
        requires
            0 <= ex < one,
            0 <= ey < one,
            0 <= ez < one,
    ;
    let sq = pxv * pxv + pyv * pyv + pzv * pzv;
    lemma_rounding_square(ux, pxv, ex);
    lemma_rounding_square(uy, pyv, ey);
    lemma_rounding_square(uz, pzv, ez);
    assert(one * one * sq == one * one * (pxv * pxv) + one * one * (pyv * pyv) + one * one * (
    pzv * pzv)) by (nonlinear_arith)
        requires
            sq == pxv * pxv + pyv * pyv + pzv * pzv,
    ;
    assert((r - 12) * (r - 12) <= sq <= (r + 5) * (r + 5)) by (nonlinear_arith)
        requires
            one == 1_000_000,
            one * one * sq == a * (t * t) - 2 * (ex * ux + ey * uy + ez * uz) + (ex * ex + ey * ey
                + ez * ez),
            one * one * ((r - 8) * (r - 8)) <= a * (t * t),
            a * (t * t) <= one * one * ((r + 2) * (r + 2)),
            -3 * (bound * one) <= ex * ux + ey * uy + ez * uz <= 3 * (bound * one),
            0 <= ex * ex + ey * ey + ez * ez <= 3 * (one * one),
            bound == one * (r + 2),
            r >= 50,
    ;
}

/// The unrounded point at either root of a well-formed sphere's quadratic
/// lies at least `radius - 2000` raw units from the centre, for a ray whose
/// direction has length at least one half.
proof fn lemma_offset_norm_lower(s: Sphere, ray: Ray, t: int)
    requires
        s.wf(),
        ray.wf(),
        quad_a(ray) >= 250_000_000_000,
        s.radius >= 12_000,
        discriminant(s, ray) >= 0,
        t == near_root(s, ray) || t == far_root(s, ray),
    ensures
        offset_norm(s, ray, t) >= (1_000_000 * (s.radius - 2_000)) * (1_000_000 * (s.radius
            - 2_000)),
{
    let one = 1_000_000int;
    let r = s.radius as int;
    let d = ray.direction;
    let (ox, oy, oz) = (
        ray.origin.x - s.center.x,
        ray.origin.y - s.center.y,
        ray.origin.z - s.center.z,
    );
    assert(oc_spec(s, ray) == vec_of(ox, oy, oz));
    let (dx, dy, dz) = (d.x as int, d.y as int, d.z as int);
    let a = quad_a(ray);
    let b = quad_b(s, ray);
    let o2 = ox * ox + oy * oy + oz * oz;
    let hb = ox * dx + oy * dy + oz * dz;
    assert(a == dx * dx + dy * dy + dz * dz);
    assert(b == 2 * hb);
    assert(quad_c(s, ray) == o2 - r * r);
    let disc = discriminant(s, ray);
    assert(disc == b * b - 4 * (a * (o2 - r * r)));
    lemma_cauchy_schwarz(ox, oy, oz, dx, dy, dz);
    assert(disc <= 4 * a * (r * r)) by (nonlinear_arith)
        requires
            disc == b * b - 4 * (a * (o2 - r * r)),
            b == 2 * hb,
            hb * hb <= o2 * a,
    ;
    assert(a <= 786_432_000_000_000_000) by (nonlinear_arith)
        requires
            a == dx * dx + dy * dy + dz * dz,
            -512_000_000 <= dx <= 512_000_000,
            -512_000_000 <= dy <= 512_000_000,
            -512_000_000 <= dz <= 512_000_000,
    ;
    lemma_floor_sqrt_exists(disc);
    let q = floor_sqrt(disc);
    assert(q * q <= disc && disc < (q + 1) * (q + 1) && q >= 0);
    assert(q <= 1_774_000_000 * r) by (nonlinear_arith)
        requires
            q * q <= 4 * a * (r * r),
            a <= 786_432_000_000_000_000,
            q >= 0,
            r >= 1,
    ;
    let bnd = 1_000_000_000_000 * (4_000 * r - 4_000_000);
    assert((2 * q + 1) + one * q <= bnd && a + one + 1 <= bnd) by (nonlinear_arith)
        requires
            q <= 1_774_000_000 * r,
            q >= 0,
            a <= 786_432_000_000_000_000,
            bnd == 1_000_000_000_000 * (4_000 * r - 4_000_000),
            r >= 12_000,
            one == 1_000_000,
    ;
    assert(one * one * (2 * q + 1) + 4 * a * (one * q) <= 4 * a * bnd) by (nonlinear_arith)
        requires
            (2 * q + 1) + one * q <= bnd,
            4 * a >= one * one,
            q >= 0,
            one == 1_000_000,
    ;
    assert(one * one * disc < one * one * (q * q) + one * one * (2 * q + 1)) by (nonlinear_arith)
        requires
            disc < (q + 1) * (q + 1),
            one == 1_000_000,
    ;
    let den = 2 * a;
    let y = 2 * a * t + one * b;
    if t == far_root(s, ray) {
        lemma_fundamental_div_mod(one * (-b + q), den);
        lemma_mod_pos_bound(one * (-b + q), den);
        let rem = (one * (-b + q)) % den;
        assert(one * (-b + q) == den * t + rem);
        assert(y == one * q - rem) by (nonlinear_arith)
            requires
                one * (-b + q) == den * t + rem,
                den == 2 * a,
                y == 2 * a * t + one * b,
        ;
        if one * q >= 2 * a {
            assert(y * y >= one * one * (q * q) - 4 * a * (one * q)) by (nonlinear_arith)
                requires
                    one * q - 2 * a <= y <= one * q,
                    one * q - 2 * a >= 0,
                    a >= 0,
            ;
        } else {
            assert(one * one * disc <= 4 * a * bnd) by (nonlinear_arith)
                requires
                    one * one * disc < one * one * (q * q) + one * one * (2 * q + 1),
                    one * q < 2 * a,
                    a + one + 1 <= bnd,
                    4 * a >= one * one,
                    q >= 0,
                    one == 1_000_000,
            ;
            assert(y * y >= 0) by (nonlinear_arith);
        }
    } else {
        lemma_fundamental_div_mod(one * (-b - q), den);
        lemma_mod_pos_bound(one * (-b - q), den);
        let rem = (one * (-b - q)) % den;
        assert(one * (-b - q) == den * t + rem);
        assert(y == -(one * q) - rem) by (nonlinear_arith)
            requires
                one * (-b - q) == den * t + rem,
                den == 2 * a,
                y == 2 * a * t + one * b,
        ;
        assert(y * y >= one * one * (q * q)) by (nonlinear_arith)
            requires
                y == -(one * q) - rem,
                rem >= 0,
                q >= 0,
                one > 0,
        ;
    }
    assert(y * y - one * one * disc >= -(4 * a * bnd));
    lemma_offset_square(ox, dx, t);
    lemma_offset_square(oy, dy, t);
    lemma_offset_square(oz, dz, t);
    let w2 = offset_norm(s, ray, t);
    let (wx, wy, wz) = (one * ox + dx * t, one * oy + dy * t, one * oz + dz * t);
    assert(w2 == wx * wx + wy * wy + wz * wz);
    assert(w2 == 1_000_000_000_000 * o2 + 1_000_000 * t * b + a * (t * t)) by (nonlinear_arith)
        requires
            wx * wx == 1_000_000_000_000 * (ox * ox) + 1_000_000 * t * (2 * (ox * dx)) + (dx
                * dx) * (t * t),
            wy * wy == 1_000_000_000_000 * (oy * oy) + 1_000_000 * t * (2 * (oy * dy)) + (dy
                * dy) * (t * t),
            wz * wz == 1_000_000_000_000 * (oz * oz) + 1_000_000 * t * (2 * (oz * dz)) + (dz
                * dz) * (t * t),
            w2 == wx * wx + wy * wy + wz * wz,
            o2 == ox * ox + oy * oy + oz * oz,
            b == 2 * (ox * dx + oy * dy + oz * dz),
            a == dx * dx + dy * dy + dz * dz,
    ;
    assert(1_000_000 * 1_000_000 == 1_000_000_000_000);
    lemma_complete_square(a, b, o2, r * r, t, w2, 1_000_000);
    assert(w2 >= (one * (r - 2_000)) * (one * (r - 2_000))) by (nonlinear_arith)
        requires
            4 * a * (w2 - 1_000_000_000_000 * (r * r)) == y * y - 1_000_000_000_000 * (b * b - 4
                * (a * (o2 - r * r))),
            disc == b * b - 4 * (a * (o2 - r * r)),
            y * y - one * one * disc >= -(4 * a * bnd),
            bnd == 1_000_000_000_000 * (4_000 * r - 4_000_000),
            one == 1_000_000,
            a >= 1,
    ;
}


/// One coordinate of a reported point against its unrounded value.
proof fn lemma_rounded_coordinate(o: int, c: int, d: int, t: int, k: int)
    requires
        -k <= 1_000_000 * (o - c) + d * t <= k,
    ensures
        ({
            let e = o + fx_mul(d, t) - c;
            let w = 1_000_000 * (o - c) + d * t;
            &&& 1_000_000_000_000 * (e * e) == w * w - 2 * ((w - 1_000_000 * e) * w) + (w
                - 1_000_000 * e) * (w - 1_000_000 * e)
            &&& 0 <= w - 1_000_000 * e < 1_000_000
            &&& -(1_000_000 * k) <= (w - 1_000_000 * e) * w <= 1_000_000 * k
            &&& 0 <= (w - 1_000_000 * e) * (w - 1_000_000 * e) <= 1_000_000_000_000
        }),
{
    lemma_fundamental_div_mod(d * t, 1_000_000);
    lemma_mod_pos_bound(d * t, 1_000_000);
    let e = o + fx_mul(d, t) - c;
    let w = 1_000_000 * (o - c) + d * t;
    let rr = w - 1_000_000 * e;
    assert(0 <= rr < 1_000_000);
    assert(1_000_000_000_000 * (e * e) == w * w - 2 * (rr * w) + rr * rr) by (nonlinear_arith)
        requires
            rr == w - 1_000_000 * e,
    ;
    assert(-(1_000_000 * k) <= rr * w <= 1_000_000 * k) by (nonlinear_arith)
        requires
            0 <= rr < 1_000_000,
            -k <= w <= k,
            k >= 0,
    ;
    assert(0 <= rr * rr <= 1_000_000_000_000) by (nonlinear_arith)
        requires
            0 <= rr < 1_000_000,
    ;
}

/// The points that a well-formed sphere reports lie on its surface up to
/// rounding: at either root of its quadratic, for a ray whose direction has
/// length at least one half, the squared distance of the point from the
/// centre lies between `(r - 2004)^2` and `(r + 1004)^2` raw units, so
/// within 0.0021 of the radius. The radius is at least 0.012.
pub proof fn lemma_roots_on_surface(s: Sphere, ray: Ray, t: int)
    requires
        s.wf(),
        ray.wf(),
        quad_a(ray) >= 250_000_000_000,
        s.radius >= 12_000,
        discriminant(s, ray) >= 0,
        t == near_root(s, ray) || t == far_root(s, ray),
    ensures
        (s.radius - 2_004) * (s.radius - 2_004) <= (px(ray, t) - s.center.x) * (px(ray, t)
            - s.center.x) + (py(ray, t) - s.center.y) * (py(ray, t) - s.center.y) + (pz(ray, t)
            - s.center.z) * (pz(ray, t) - s.center.z) <= (s.radius + 1_004) * (s.radius + 1_004),
{
    let one = 1_000_000int;
    let r = s.radius as int;
    lemma_root_near_surface(s, ray, t);
    lemma_offset_norm_lower(s, ray, t);
    let k = one * (r + 1_000);
    let (o, c, d) = (ray.origin, s.center, ray.direction);
    let wx = one * (o.x - c.x) + d.x * t;
    let wy = one * (o.y - c.y) + d.y * t;
    let wz = one * (o.z - c.z) + d.z * t;
    let w2 = offset_norm(s, ray, t);
    assert(w2 == wx * wx + wy * wy + wz * wz);
    assert(wx * wx <= k * k && wy * wy <= k * k && wz * wz <= k * k) by (nonlinear_arith)
        requires
            w2 == wx * wx + wy * wy + wz * wz,
            w2 <= k * k,
    ;
    lemma_sq_le(wx, k);
    lemma_sq_le(wy, k);
    lemma_sq_le(wz, k);
    lemma_rounded_coordinate(o.x as int, c.x as int, d.x as int, t, k);
    lemma_rounded_coordinate(o.y as int, c.y as int, d.y as int, t, k);
    lemma_rounded_coordinate(o.z as int, c.z as int, d.z as int, t, k);
    let ex = px(ray, t) - c.x;
    let ey = py(ray, t) - c.y;
    let ez = pz(ray, t) - c.z;
    let (rx, ry, rz) = (wx - one * ex, wy - one * ey, wz - one * ez);
    let sum = ex * ex + ey * ey + ez * ez;
    let cross = rx * wx + ry * wy + rz * wz;
    let rsq = rx * rx + ry * ry + rz * rz;
    assert(1_000_000_000_000 * sum == w2 - 2 * cross + rsq);
    let rr2 = r * r;
    assert((one * (r - 2_000)) * (one * (r - 2_000)) == 1_000_000_000_000 * (rr2 - 4_000 * r
        + 4_000_000)) by (nonlinear_arith)
        requires
            rr2 == r * r,
            one == 1_000_000,
    ;
    assert(k * k == 1_000_000_000_000 * (rr2 + 2_000 * r + 1_000_000)) by (nonlinear_arith)
        requires
            rr2 == r * r,
            k == one * (r + 1_000),
            one == 1_000_000,
    ;
    assert(one * k == 1_000_000_000_000 * (r + 1_000));
    assert((r - 2_004) * (r - 2_004) == rr2 - 4_008 * r + 4_016_016) by (nonlinear_arith)
        requires
            rr2 == r * r,
    ;
    assert((r + 1_004) * (r + 1_004) == rr2 + 2_008 * r + 1_008_016) by (nonlinear_arith)
        requires
            rr2 == r * r,
    ;
    assert(rr2 - 4_008 * r + 4_016_016 <= sum <= rr2 + 2_008 * r + 1_008_016);
}

} // verus!
