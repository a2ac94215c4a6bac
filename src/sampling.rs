//! Random draws: uniform fractions and points of the unit ball.
use crate::fixed::ONE;
use crate::vec3::{dot_raw, in_box, Vec3};
use vstd::prelude::*;

verus! {

/// How many candidates the unit-ball sampler draws before it gives up and
/// returns the centre. Each candidate is accepted with probability about
/// one half, so giving up is practically never seen.
pub const MAX_ATTEMPTS: usize = 64;

/// `v` lies strictly inside the ball of radius one.
pub open spec fn in_unit_ball(v: Vec3) -> bool {
    dot_raw(v, v) < (ONE as int) * (ONE as int)
}

/// A point of the unit ball lies in the unit box.
pub proof fn lemma_unit_ball_in_box(v: Vec3)
    requires
        in_unit_ball(v),
    ensures
        in_box(v, ONE as int),
{
    let one = ONE as int;
    assert(in_box(v, one)) by (nonlinear_arith)
        requires
            v.x * v.x + v.y * v.y + v.z * v.z < one * one,
            one > 0,
    ;
}

/// Relies on `rand::random_range`: a value drawn from `0..ONE` with the
/// thread-local generator. The range is not empty, so the call does not panic.
#[verifier::external_body]
pub(crate) fn random_fraction() -> (r: i64)
    ensures
        0 <= r < ONE,
{
    rand::random_range(0..ONE)
}

/// Maps three fractions in `[0, ONE)` to the point of the cube `[-1, 1)^3`
/// they stand for, and keeps it when it lies inside the unit ball.
pub fn unit_ball_candidate(a: i64, b: i64, c: i64) -> (r: Option<Vec3>)
    requires
        0 <= a < ONE,
        0 <= b < ONE,
        0 <= c < ONE,
    ensures
        ({
            let p = Vec3 { x: (2 * a - ONE) as i64, y: (2 * b - ONE) as i64, z: (2 * c - ONE) as i64 };
            r == if in_unit_ball(p) {
                Some(p)
            } else {
                None
            }
        }),
{
    let p = Vec3 { x: 2 * a - ONE, y: 2 * b - ONE, z: 2 * c - ONE };
    let sq = p.squared_length();
    if sq < 1_000_000_000_000i128 {
        Some(p)
    } else {
        None
    }
}

impl Vec3 {
    /// A random point strictly inside the unit ball, by rejection from the
    /// cube `[-1, 1)^3`.
    pub fn random_in_unit_sphere() -> (r: Vec3)
        ensures
            in_unit_ball(r),
            in_box(r, ONE as int),
    {
        let mut attempt: usize = 0;
        while attempt < MAX_ATTEMPTS
            decreases MAX_ATTEMPTS - attempt,
        {
            let a = random_fraction();
            let b = random_fraction();
            let c = random_fraction();
            match unit_ball_candidate(a, b, c) {
                Some(p) => {
                    proof {
                        lemma_unit_ball_in_box(p);
                    }
                    return p;
                },
                None => {},
            }
            attempt += 1;
        }
        let centre = Vec3 { x: 0, y: 0, z: 0 };
        assert(dot_raw(centre, centre) == 0);
        centre
    }
}

} // verus!
