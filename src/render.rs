//! Light transport: the sky gradient, the bounded bounce loop, and the
//! per-pixel average of jittered samples.
use crate::camera::{view_direction, Camera};
use crate::fixed::{fx_mul, lemma_div_bounds, lemma_div_is_ordered_int, mul_fixed, LIMIT, ONE};
use crate::material::scatter_spec;
use crate::ray::Ray;
use crate::sampling::{in_unit_ball, lemma_unit_ball_in_box, random_fraction};
use crate::scene::{nearest_hit, Scene};
use crate::sphere::Sphere;
use crate::vec3::{in_box, is_colour, modulate_spec, unit_spec, vec_of, Vec3};
use vstd::prelude::*;

verus! {

/// Bounces after which a path is cut off and contributes black.
pub const MAX_DEPTH: usize = 50;

/// Most samples that one pixel averages.
pub const MAX_SAMPLES: usize = 1_000_000_000;

pub open spec fn white() -> Vec3 {
    Vec3 { x: 1_000_000, y: 1_000_000, z: 1_000_000 }
}

pub open spec fn black() -> Vec3 {
    Vec3 { x: 0, y: 0, z: 0 }
}

/// The colour of the sky straight up is white; this is the colour straight down.
pub open spec fn sky_blue() -> Vec3 {
    Vec3 { x: 500_000, y: 700_000, z: 1_000_000 }
}

/// The blend factor of the sky: the unit direction's height mapped from
/// `[-1, 1]` to `[0, 1]`.
pub open spec fn gradient_t(d: Vec3) -> int {
    (unit_spec(d).y + ONE) / 2
}

/// `white * t + sky_blue * (1 - t)`: white overhead, sky blue underfoot.
pub open spec fn background_spec(d: Vec3) -> Vec3 {
    let t = gradient_t(d);
    vec_of(
        fx_mul(ONE as int, t) + fx_mul(sky_blue().x as int, ONE - t),
        fx_mul(ONE as int, t) + fx_mul(sky_blue().y as int, ONE - t),
        fx_mul(ONE as int, t) + fx_mul(sky_blue().z as int, ONE - t),
    )
}

/// The colour that a path brings back: `ray` is traced against `objs`,
/// `throughput` is what earlier bounces let through, and `samples` holds one
/// point of the unit ball for each bounce still allowed. A miss shows the
/// sky, an absorbed path or one that runs out of bounces is black.
pub open spec fn radiance(objs: Seq<Sphere>, ray: Ray, samples: Seq<Vec3>, throughput: Vec3) -> Vec3
    decreases samples.len(),
{
    if samples.len() == 0 {
        black()
    } else {
        match nearest_hit(objs, ray, 0, i64::MAX) {
            None => modulate_spec(throughput, background_spec(ray.direction)),
            Some(h) => {
                let s = scatter_spec(h.material, ray, h, samples[0]);
                if s.2 {
                    radiance(objs, s.1, samples.drop_first(), modulate_spec(throughput, s.0))
                } else {
                    black()
                }
            },
        }
    }
}

/// The viewport fraction of sample `d` of pixel `i` out of `n`: `(i + d) / n`.
pub open spec fn pixel_fraction(i: int, n: int, d: int) -> int {
    (i * ONE + d) / n
}

/// The sum of one channel (0, 1 or 2) over a sequence of colours.
pub open spec fn channel_sum(s: Seq<Vec3>, k: int) -> int
    decreases s.len(),
{
    if s.len() == 0 {
        0
    } else {
        channel_sum(s.drop_last(), k) + if k == 0 {
            s.last().x as int
        } else if k == 1 {
            s.last().y as int
        } else {
            s.last().z as int
        }
    }
}

/// The sky seen straight up is exactly white, and straight down exactly sky blue.
pub proof fn lemma_background_extremes(d: Vec3)
    ensures
        unit_spec(d).y == ONE ==> background_spec(d) == white(),
        unit_spec(d).y == -ONE ==> background_spec(d) == sky_blue(),
{
    let t = gradient_t(d);
    if unit_spec(d).y == ONE {
        assert(t == ONE);
        assert(fx_mul(ONE as int, t) == ONE);
        assert(fx_mul(sky_blue().x as int, ONE - t) == 0);
        assert(fx_mul(sky_blue().y as int, ONE - t) == 0);
        assert(fx_mul(sky_blue().z as int, ONE - t) == 0);
    }
    if unit_spec(d).y == -ONE {
        assert(t == 0);
        assert(fx_mul(ONE as int, t) == 0);
        assert(fx_mul(sky_blue().x as int, ONE - t) == 500_000);
        assert(fx_mul(sky_blue().y as int, ONE - t) == 700_000);
        assert(fx_mul(sky_blue().z as int, ONE - t) == 1_000_000);
    }
}

/// Scaling by a fraction in `[0, ONE]` gives a value between zero and the scalar.
proof fn lemma_fraction_of(c: int, t: int)
    requires
        0 <= c <= ONE,
        0 <= t,
    ensures
        0 <= fx_mul(c, t) <= t,
{
    assert(0 * (ONE as int) <= c * t <= t * (ONE as int)) by (nonlinear_arith)
        requires
            0 <= c <= ONE,
            0 <= t,
    ;
    lemma_div_bounds(c * t, 0, t, ONE as int);
}

/// The background colour for a ray going in `direction`.
pub fn background(direction: &Vec3) -> (r: Vec3)
    requires
        in_box(*direction, LIMIT as int),
    ensures
        r == background_spec(*direction),
        is_colour(r),
{
    let u = direction.unit_vector();
    let t = (u.y + ONE) / 2;
    let w = ONE - t;
    proof {
        lemma_div_bounds((ONE as int) * t, t as int, t as int, ONE as int);
        lemma_fraction_of(500_000, w as int);
        lemma_fraction_of(700_000, w as int);
        lemma_fraction_of(1_000_000, w as int);
    }
    let up = mul_fixed(ONE, t);
    Vec3 {
        x: up + mul_fixed(500_000, w),
        y: up + mul_fixed(700_000, w),
        z: up + mul_fixed(1_000_000, w),
    }
}

/// Traces `ray` through `scene`, one bounce per entry of `samples` at most;
/// each entry is the point of the unit ball that a diffuse bounce uses.
pub fn trace(scene: &Scene, ray: &Ray, samples: &Vec<Vec3>) -> (r: Vec3)
    requires
        scene.wf(),
        ray.wf(),
        forall|i: int| 0 <= i < samples@.len() ==> in_box(#[trigger] samples@[i], ONE as int),
    ensures
        r == radiance(scene.objects@, *ray, samples@, white()),
        is_colour(r),
{
    let ghost objs = scene.objects@;
    let mut cur = *ray;
    let mut throughput = Vec3 { x: ONE, y: ONE, z: ONE };
    let mut i: usize = 0;
    assert(samples@.skip(0) =~= samples@);
    while i < samples.len()
        invariant
            scene.wf(),
            objs == scene.objects@,
            forall|k: int| 0 <= k < samples@.len() ==> in_box(#[trigger] samples@[k], ONE as int),
            i <= samples@.len(),
            cur.wf(),
            is_colour(throughput),
            radiance(objs, *ray, samples@, white()) == radiance(
                objs,
                cur,
                samples@.skip(i as int),
                throughput,
            ),
        decreases samples@.len() - i,
    {
        let ghost rest = samples@.skip(i as int);
        assert(rest[0] == samples@[i as int]);
        assert(rest.drop_first() =~= samples@.skip(i + 1));
        match scene.hit(&cur, 0, i64::MAX) {
            None => {
                let sky = background(&cur.direction);
                return throughput.modulate(&sky);
            },
            Some(h) => {
                let (attenuation, scattered, going_on) = h.material.scatter(&cur, &h, &samples[i]);
                if !going_on {
                    return Vec3 { x: 0, y: 0, z: 0 };
                }
                throughput = throughput.modulate(&attenuation);
                cur = scattered;
            },
        }
        i += 1;
    }
    Vec3 { x: 0, y: 0, z: 0 }
}

/// The colour seen along `ray`: a path of at most `MAX_DEPTH` bounces, with
/// the diffuse bounces drawn at random from the unit ball.
pub fn color(scene: &Scene, ray: &Ray) -> (r: Vec3)
    requires
        scene.wf(),
        ray.wf(),
    ensures
        is_colour(r),
        exists|s: Seq<Vec3>|
            s.len() == MAX_DEPTH && (forall|i: int| 0 <= i < s.len() ==> in_unit_ball(#[trigger] s[i]))
                && r == radiance(scene.objects@, *ray, s, white()),
{
    let mut samples: Vec<Vec3> = Vec::new();
    while samples.len() < MAX_DEPTH
        invariant
            samples@.len() <= MAX_DEPTH,
            forall|i: int| 0 <= i < samples@.len() ==> in_unit_ball(#[trigger] samples@[i]),
            forall|i: int| 0 <= i < samples@.len() ==> in_box(#[trigger] samples@[i], ONE as int),
        decreases MAX_DEPTH - samples@.len(),
    {
        let p = Vec3::random_in_unit_sphere();
        samples.push(p);
    }
    let r = trace(scene, ray, &samples);
    assert(samples@.len() == MAX_DEPTH && (forall|i: int| 0 <= i < samples@.len() ==> in_unit_ball(#[trigger] samples@[i]))
        && r == radiance(scene.objects@, *ray, samples@, white()));
    r
}

/// The ray for one sample of pixel `(i, j)` of an `nx` by `ny` image, whose
/// position inside the pixel is jittered by the fractions `du` and `dv`.
pub fn sample_ray(camera: &Camera, i: u32, j: u32, nx: u32, ny: u32, du: i64, dv: i64) -> (r: Ray)
    requires
        camera.wf(),
        i < nx,
        j < ny,
        0 <= du < ONE,
        0 <= dv < ONE,
    ensures
        r == (Ray {
            origin: camera.origin,
            direction: view_direction(
                *camera,
                pixel_fraction(i as int, nx as int, du as int),
                pixel_fraction(j as int, ny as int, dv as int),
            ),
        }),
        r.wf(),
{
    proof {
        lemma_div_bounds(i * ONE + du, 0, ONE as int, nx as int);
        lemma_div_bounds(j * ONE + dv, 0, ONE as int, ny as int);
    }
    let u = ((i as i64) * ONE + du) / (nx as i64);
    let v = ((j as i64) * ONE + dv) / (ny as i64);
    camera.get_ray(u, v)
}

/// The channel-wise mean of `colors`, each channel rounded down.
pub fn average(colors: &Vec<Vec3>) -> (r: Vec3)
    requires
        0 < colors@.len() <= MAX_SAMPLES,
        forall|i: int| 0 <= i < colors@.len() ==> is_colour(#[trigger] colors@[i]),
    ensures
        r == vec_of(
            channel_sum(colors@, 0) / colors@.len() as int,
            channel_sum(colors@, 1) / colors@.len() as int,
            channel_sum(colors@, 2) / colors@.len() as int,
        ),
        is_colour(r),
{
    let mut sx: i64 = 0;
    let mut sy: i64 = 0;
    let mut sz: i64 = 0;
    let mut i: usize = 0;
    while i < colors.len()
        invariant
            i <= colors@.len() <= MAX_SAMPLES,
            forall|k: int| 0 <= k < colors@.len() ==> is_colour(#[trigger] colors@[k]),
            sx == channel_sum(colors@.take(i as int), 0),
            sy == channel_sum(colors@.take(i as int), 1),
            sz == channel_sum(colors@.take(i as int), 2),
            0 <= sx <= i * ONE,
            0 <= sy <= i * ONE,
            0 <= sz <= i * ONE,
        decreases colors@.len() - i,
    {
        assert(colors@.take(i + 1).drop_last() =~= colors@.take(i as int));
        let c = colors[i];
        sx = sx + c.x;
        sy = sy + c.y;
        sz = sz + c.z;
        i += 1;
    }
    assert(colors@.take(i as int) =~= colors@);
    let n = colors.len() as i64;
    proof {
        lemma_div_bounds(sx as int, 0, ONE as int, n as int);
        lemma_div_bounds(sy as int, 0, ONE as int, n as int);
        lemma_div_bounds(sz as int, 0, ONE as int, n as int);
    }
    Vec3 { x: sx / n, y: sy / n, z: sz / n }
}

/// The ray through pixel `(i, j)` of an `nx` by `ny` image, jittered by the
/// fractions `du` and `dv`.
pub open spec fn jittered_ray(camera: Camera, i: int, j: int, nx: int, ny: int, du: int, dv: int) -> Ray {
    Ray {
        origin: camera.origin,
        direction: view_direction(camera, pixel_fraction(i, nx, du), pixel_fraction(j, ny, dv)),
    }
}

/// The colour of each sample: sample `k` goes through the point jittered by
/// `jitters[k]` and bounces with the unit-ball points `bounces[k]`.
pub open spec fn sample_colours(
    camera: Camera,
    objs: Seq<Sphere>,
    i: int,
    j: int,
    nx: int,
    ny: int,
    jitters: Seq<(i64, i64)>,
    bounces: Seq<Vec<Vec3>>,
) -> Seq<Vec3> {
    Seq::new(
        jitters.len(),
        |k: int|
            radiance(
                objs,
                jittered_ray(camera, i, j, nx, ny, jitters[k].0 as int, jitters[k].1 as int),
                bounces[k]@,
                white(),
            ),
    )
}

/// The channel-wise mean of a non-empty sequence of colours, rounded down.
pub open spec fn mean_colour(cs: Seq<Vec3>) -> Vec3 {
    vec_of(
        channel_sum(cs, 0) / cs.len() as int,
        channel_sum(cs, 1) / cs.len() as int,
        channel_sum(cs, 2) / cs.len() as int,
    )
}

/// Jitter pairs that each lie in `[0, ONE)`.
pub open spec fn jitters_ok(jitters: Seq<(i64, i64)>) -> bool {
    forall|k: int|
        0 <= k < jitters.len() ==> 0 <= (#[trigger] jitters[k]).0 < ONE && 0 <= jitters[k].1 < ONE
}

/// The colour of pixel `(i, j)` of an `nx` by `ny` image from given draws:
/// the mean over the samples, where sample `k` is jittered by `jitters[k]`
/// and bounces with the points `bounces[k]`.
pub fn pixel_color_from(
    camera: &Camera,
    scene: &Scene,
    i: u32,
    j: u32,
    nx: u32,
    ny: u32,
    jitters: &Vec<(i64, i64)>,
    bounces: &Vec<Vec<Vec3>>,
) -> (r: Vec3)
    requires
        camera.wf(),
        scene.wf(),
        i < nx,
        j < ny,
        0 < jitters@.len() <= MAX_SAMPLES,
        bounces@.len() == jitters@.len(),
        jitters_ok(jitters@),
        forall|k: int, m: int|
            0 <= k < bounces@.len() && 0 <= m < bounces@[k]@.len() ==> in_box(
                #[trigger] bounces@[k]@[m],
                ONE as int,
            ),
    ensures
        r == mean_colour(
            sample_colours(*camera, scene.objects@, i as int, j as int, nx as int, ny as int, jitters@, bounces@),
        ),
        is_colour(r),
{
    let ghost all = sample_colours(
        *camera,
        scene.objects@,
        i as int,
        j as int,
        nx as int,
        ny as int,
        jitters@,
        bounces@,
    );
    let mut colors: Vec<Vec3> = Vec::new();
    let mut k: usize = 0;
    while k < jitters.len()
        invariant
            camera.wf(),
            scene.wf(),
            i < nx,
            j < ny,
            k <= jitters@.len(),
            bounces@.len() == jitters@.len(),
            jitters_ok(jitters@),
            forall|a: int, m: int|
                0 <= a < bounces@.len() && 0 <= m < bounces@[a]@.len() ==> in_box(
                    #[trigger] bounces@[a]@[m],
                    ONE as int,
                ),
            all == sample_colours(
                *camera,
                scene.objects@,
                i as int,
                j as int,
                nx as int,
                ny as int,
                jitters@,
                bounces@,
            ),
            colors@ =~= all.take(k as int),
            forall|a: int| 0 <= a < colors@.len() ==> is_colour(#[trigger] colors@[a]),
        decreases jitters@.len() - k,
    {
        let (du, dv) = jitters[k];
        assert(0 <= jitters@[k as int].0 < ONE);
        let ray = sample_ray(camera, i, j, nx, ny, du, dv);
        let b = &bounces[k];
        assert forall|m: int| 0 <= m < b@.len() implies in_box(#[trigger] b@[m], ONE as int) by {
            assert(in_box(bounces@[k as int]@[m], ONE as int));
        }
        let c = trace(scene, &ray, b);
        colors.push(c);
        k += 1;
        assert(colors@ =~= all.take(k as int));
    }
    assert(all.take(k as int) =~= all);
    average(&colors)
}

/// The colour of pixel `(i, j)` of an `nx` by `ny` image: the mean of `ns`
/// samples, each through a randomly jittered point of the pixel and with
/// randomly drawn diffuse bounces.
pub fn pixel_color(camera: &Camera, scene: &Scene, i: u32, j: u32, nx: u32, ny: u32, ns: usize) -> (r: Vec3)
    requires
        camera.wf(),
        scene.wf(),
        i < nx,
        j < ny,
        0 < ns <= MAX_SAMPLES,
    ensures
        is_colour(r),
        exists|jitters: Seq<(i64, i64)>, bounces: Seq<Vec<Vec3>>|
            jitters.len() == ns && bounces.len() == ns && jitters_ok(jitters) && (forall|k: int|
                0 <= k < ns ==> (#[trigger] bounces[k])@.len() == MAX_DEPTH) && (forall|k: int, m: int|
                0 <= k < ns && 0 <= m < bounces[k]@.len() ==> in_unit_ball(#[trigger] bounces[k]@[m]))
                && r == mean_colour(
                sample_colours(*camera, scene.objects@, i as int, j as int, nx as int, ny as int, jitters, bounces),
            ),
{
    let mut jitters: Vec<(i64, i64)> = Vec::new();
    let mut bounces: Vec<Vec<Vec3>> = Vec::new();
    while jitters.len() < ns
        invariant
            jitters@.len() <= ns,
            bounces@.len() == jitters@.len(),
            jitters_ok(jitters@),
            forall|k: int| 0 <= k < bounces@.len() ==> (#[trigger] bounces@[k])@.len() == MAX_DEPTH,
            forall|k: int, m: int|
                0 <= k < bounces@.len() && 0 <= m < bounces@[k]@.len() ==> in_unit_ball(
                    #[trigger] bounces@[k]@[m],
                ),
        decreases ns - jitters@.len(),
    {
        let du = random_fraction();
        let dv = random_fraction();
        let mut path: Vec<Vec3> = Vec::new();
        while path.len() < MAX_DEPTH
            invariant
                path@.len() <= MAX_DEPTH,
                forall|m: int| 0 <= m < path@.len() ==> in_unit_ball(#[trigger] path@[m]),
            decreases MAX_DEPTH - path@.len(),
        {
            path.push(Vec3::random_in_unit_sphere());
        }
        jitters.push((du, dv));
        bounces.push(path);
        proof {
            assert forall|k: int, m: int|
                0 <= k < bounces@.len() && 0 <= m < bounces@[k]@.len() implies in_unit_ball(
                    #[trigger] bounces@[k]@[m],
                ) by {
                if k == bounces@.len() - 1 {
                    assert(bounces@[k]@ == path@);
                }
            }
        }
    }
    proof {
        assert forall|k: int, m: int|
            0 <= k < bounces@.len() && 0 <= m < bounces@[k]@.len() implies in_box(
                #[trigger] bounces@[k]@[m],
                ONE as int,
            ) by {
            lemma_unit_ball_in_box(bounces@[k]@[m]);
        }
    }
    let r = pixel_color_from(camera, scene, i, j, nx, ny, &jitters, &bounces);
    assert(jitters@.len() == ns && bounces@.len() == ns && jitters_ok(jitters@));
    r
}

/// A colour channel in `[0, ONE]` as a byte: `floor(255.99 * c)`.
pub fn channel_to_byte(c: i64) -> (r: u8)
    requires
        0 <= c <= ONE,
    ensures
        r == (c * 25_599) / 100_000_000,
{
    proof {
        lemma_div_bounds(c * 25_599, 0, 256, 100_000_000);
        lemma_div_is_ordered_int(c * 25_599, 25_599_000_000, 100_000_000);
    }
    ((c * 25_599) / 100_000_000) as u8
}

/// The colour that shows a unit normal directly: each component mapped from
/// `[-1, 1]` to `[0, 1]`, that is `0.5 * (n + (1, 1, 1))`.
pub fn normal_color(n: &Vec3) -> (r: Vec3)
    requires
        in_box(*n, 2 * ONE),
    ensures
        r == vec_of(
            fx_mul(n.x + ONE, 500_000),
            fx_mul(n.y + ONE, 500_000),
            fx_mul(n.z + ONE, 500_000),
        ),
{
    let shifted = Vec3 { x: n.x + ONE, y: n.y + ONE, z: n.z + ONE };
    proof {
        lemma_div_bounds(shifted.x * 500_000, -2 * ONE, 2 * ONE, ONE as int);
        lemma_div_bounds(shifted.y * 500_000, -2 * ONE, 2 * ONE, ONE as int);
        lemma_div_bounds(shifted.z * 500_000, -2 * ONE, 2 * ONE, ONE as int);
    }
    shifted.mul(500_000)
}

} // verus!
