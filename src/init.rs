use crate::flock::{default_params, population_wf, Boid, Params, SOLID_SIZE, UNIT, X_SIZE, Y_SIZE};
use crate::vector::{abs, Vec3, COORD_LIMIT};
use rand::rngs::ThreadRng;
use rand::Rng;
use vstd::arithmetic::div_mod::{
    lemma_div_is_ordered, lemma_div_multiples_vanish, lemma_div_pos_is_pos, lemma_div_is_ordered_by_denominator,
    lemma_fundamental_div_mod, lemma_fundamental_div_mod_converse, lemma_mod_pos_bound,
};
use vstd::prelude::*;

verus! {

#[verifier::external_type_specification]
#[verifier::external_body]
pub struct ExThreadRng(ThreadRng);

/// Bound on the product of two differences of coordinates.
pub const SPAN_SQ: i64 = 4_000_000_000_000_000_000;

/// Number of steps of a uniform draw between two bounds.
pub const RESOLUTION: i64 = 1_000_000;

/// Largest speed along one axis of a freshly drawn agent.
pub const START_SPEED: i64 = 5 * UNIT;

/// Display tag of a freshly drawn agent: opaque white.
pub const WHITE: u32 = 0xFFFF_FFFF;

/// A box in which agents are placed at random.
#[derive(Clone, Copy, Debug)]
pub struct Bounds {
    pub x_min: i64,
    pub x_max: i64,
    pub y_min: i64,
    pub y_max: i64,
    pub z_min: i64,
    pub z_max: i64,
}

/// A non-empty interval of the representable domain.
pub open spec fn is_interval(lo: int, hi: int) -> bool {
    -COORD_LIMIT <= lo <= hi <= COORD_LIMIT
}

/// `x` lies in the closed interval `[lo, hi]`.
pub open spec fn contains(lo: int, hi: int, x: int) -> bool {
    lo <= x <= hi
}

impl Bounds {
    /// Each axis is a non-empty interval of the representable domain.
    pub open spec fn wf(self) -> bool {
        is_interval(self.x_min as int, self.x_max as int) && is_interval(
            self.y_min as int,
            self.y_max as int,
        ) && is_interval(self.z_min as int, self.z_max as int)
    }

    /// `p` lies inside the box.
    pub open spec fn holds(self, p: Vec3) -> bool {
        contains(self.x_min as int, self.x_max as int, p.x as int) && contains(
            self.y_min as int,
            self.y_max as int,
            p.y as int,
        ) && contains(self.z_min as int, self.z_max as int, p.z as int)
    }

    /// The whole planar domain of the default parameters.
    pub fn whole_domain() -> (r: Self)
        ensures
            r == (Bounds { x_min: 0, x_max: X_SIZE, y_min: 0, y_max: Y_SIZE, z_min: 0, z_max: 0 }),
            r.wf(),
    {
        Bounds { x_min: 0, x_max: X_SIZE, y_min: 0, y_max: Y_SIZE, z_min: 0, z_max: 0 }
    }

    /// The whole cubic domain of the solid default parameters.
    pub fn whole_solid_domain() -> (r: Self)
        ensures
            r == (Bounds {
                x_min: 0,
                x_max: SOLID_SIZE,
                y_min: 0,
                y_max: SOLID_SIZE,
                z_min: 0,
                z_max: SOLID_SIZE,
            }),
            r.wf(),
    {
        Bounds { x_min: 0, x_max: SOLID_SIZE, y_min: 0, y_max: SOLID_SIZE, z_min: 0, z_max: SOLID_SIZE }
    }
}

/// Relies on rand::Rng::gen_range over the half-open range `0..n`: the value drawn lies in it.
/// An empty range panics, which `requires` leaves out.
#[verifier::external_body]
fn draw_below(rng: &mut ThreadRng, n: i64) -> (r: i64)
    requires
        0 < n,
    ensures
        0 <= r < n,
{
    rng.gen_range(0..n)
}

/// Division rounding down, for a nonzero divisor of either sign.
pub open spec fn floor_div(a: int, b: int) -> int {
    if b > 0 {
        a / b
    } else {
        (-a) / (-b)
    }
}

/// Rounding down a negative quotient from the quotient of its magnitude rounded up.
proof fn lemma_floor_of_negative(n: int, d: int)
    requires
        n > 0,
        d > 0,
    ensures
        -((n + d - 1) / d) == (-n) / d,
{
    let x = n + d - 1;
    lemma_fundamental_div_mod(x, d);
    lemma_mod_pos_bound(x, d);
    let q = x / d;
    let r = x % d;
    assert(-n == (-q) * d + (d - 1 - r)) by (nonlinear_arith)
        requires
            x == d * q + r,
            x == n + d - 1,
    ;
    lemma_fundamental_div_mod_converse(-n, d, -q, d - 1 - r);
}

/// Maps `v` linearly from the scale on which `old_low` and `old_hi` lie to the one on which
/// `new_low` and `new_hi` lie, rounding down: `old_low` goes to `new_low` and `old_hi` to
/// `new_hi`. Either interval may be reversed, and `v` may lie outside the first one.
pub fn range_scale(v: i64, old_low: i64, old_hi: i64, new_low: i64, new_hi: i64) -> (r: i64)
    requires
        old_low != old_hi,
        abs(v as int) <= COORD_LIMIT,
        abs(old_low as int) <= COORD_LIMIT,
        abs(old_hi as int) <= COORD_LIMIT,
        abs(new_low as int) <= COORD_LIMIT,
        abs(new_hi as int) <= COORD_LIMIT,
    ensures
        r == new_low + floor_div((v - old_low) * (new_hi - new_low), old_hi - old_low),
        v == old_low ==> r == new_low,
        v == old_hi ==> r == new_hi,
{
    let diff = v - old_low;
    let span = new_hi - new_low;
    let mut den = old_hi - old_low;
    let ghost d0 = den as int;
    assert(-SPAN_SQ <= diff * span <= SPAN_SQ) by (nonlinear_arith)
        requires
            -2 * COORD_LIMIT <= diff <= 2 * COORD_LIMIT,
            -2 * COORD_LIMIT <= span <= 2 * COORD_LIMIT,
    ;
    let mut num = diff * span;
    let ghost n0 = num as int;
    if den < 0 {
        num = -num;
        den = -den;
    }
    assert(floor_div(n0, d0) == num as int / den as int);
    let q = if num >= 0 {
        num / den
    } else {
        proof {
            lemma_floor_of_negative(-num as int, den as int);
        }
        -((-num + den - 1) / den)
    };
    proof {
        if num >= 0 {
            lemma_div_is_ordered(num as int, SPAN_SQ as int, den as int);
            lemma_div_is_ordered(0, num as int, den as int);
        } else {
            lemma_div_is_ordered(-num + den - 1, SPAN_SQ + den as int, den as int);
            lemma_div_is_ordered(0, -num + den - 1, den as int);
            lemma_div_is_ordered(SPAN_SQ + den as int, 2 * SPAN_SQ as int, den as int);
        }
        lemma_div_is_ordered_by_denominator(2 * SPAN_SQ as int, 1, den as int);
        if v == old_low {
            assert(n0 == 0) by (nonlinear_arith)
                requires
                    n0 == diff * span,
                    diff == 0,
            ;
        }
        if v == old_hi {
            assert(n0 == d0 * span) by (nonlinear_arith)
                requires
                    n0 == diff * span,
                    diff == d0,
            ;
            if d0 > 0 {
                lemma_div_multiples_vanish(span as int, d0);
            } else {
                assert(-n0 == (-d0) * span) by (nonlinear_arith)
                    requires
                        n0 == d0 * span,
                ;
                lemma_div_multiples_vanish(span as int, -d0);
            }
        }
    }
    new_low + q
}

/// A point drawn uniformly, on a grid of `RESOLUTION` steps per axis, from `lo..=hi`.
fn draw_between(rng: &mut ThreadRng, lo: i64, hi: i64) -> (r: i64)
    requires
        is_interval(lo as int, hi as int),
    ensures
        lo <= r <= hi,
{
    let u = draw_below(rng, RESOLUTION);
    let r = range_scale(u, 0, RESOLUTION, lo, hi);
    proof {
        let span = hi - lo;
        assert(0 <= u * span <= RESOLUTION * span) by (nonlinear_arith)
            requires
                0 <= u < RESOLUTION,
                span >= 0,
        ;
        lemma_div_is_ordered(u * span, RESOLUTION * span, RESOLUTION as int);
        lemma_div_multiples_vanish(span, RESOLUTION as int);
        lemma_div_pos_is_pos(u * span, RESOLUTION as int);
    }
    r
}

/// A point drawn at random inside `bounds`.
pub fn rvec3_range(rng: &mut ThreadRng, bounds: &Bounds) -> (r: Vec3)
    requires
        bounds.wf(),
    ensures
        bounds.holds(r),
{
    let x = draw_between(rng, bounds.x_min, bounds.x_max);
    let y = draw_between(rng, bounds.y_min, bounds.y_max);
    let z = draw_between(rng, bounds.z_min, bounds.z_max);
    Vec3 { x, y, z }
}

/// A point drawn at random inside the `x`, `y` rectangle of `bounds`, with `z` zero.
pub fn rvec2_range(rng: &mut ThreadRng, bounds: &Bounds) -> (r: Vec3)
    requires
        bounds.wf(),
    ensures
        contains(bounds.x_min as int, bounds.x_max as int, r.x as int),
        contains(bounds.y_min as int, bounds.y_max as int, r.y as int),
        r.z == 0,
{
    let x = draw_between(rng, bounds.x_min, bounds.x_max);
    let y = draw_between(rng, bounds.y_min, bounds.y_max);
    Vec3 { x, y, z: 0 }
}

/// An agent placed at random inside `bounds`, moving at most `START_SPEED` along each axis. In a
/// flat box (`z_min == z_max`) the agent moves in the plane.
pub fn random_boid(rng: &mut ThreadRng, bounds: &Bounds) -> (r: Boid)
    requires
        bounds.wf(),
    ensures
        r.wf(),
        bounds.holds(r.position),
        abs(r.velocity.x as int) <= START_SPEED,
        abs(r.velocity.y as int) <= START_SPEED,
        abs(r.velocity.z as int) <= START_SPEED,
        bounds.z_min == bounds.z_max ==> r.velocity.z == 0,
        r.color == WHITE,
{
    let position = rvec3_range(rng, bounds);
    let velocity = if bounds.z_min == bounds.z_max {
        rvec2_range(
            rng,
            &Bounds {
                x_min: -START_SPEED,
                x_max: START_SPEED,
                y_min: -START_SPEED,
                y_max: START_SPEED,
                z_min: 0,
                z_max: 0,
            },
        )
    } else {
        rvec3_range(
            rng,
            &Bounds {
                x_min: -START_SPEED,
                x_max: START_SPEED,
                y_min: -START_SPEED,
                y_max: START_SPEED,
                z_min: -START_SPEED,
                z_max: START_SPEED,
            },
        )
    };
    Boid { position, velocity, color: WHITE }
}

/// Size of a freshly drawn flock.
pub const NUM_BOIDS: usize = 200;

/// A fresh start: the default parameters and `NUM_BOIDS` agents drawn inside the whole domain.
pub fn reset(rng: &mut ThreadRng) -> (r: (Params, Vec<Boid>))
    ensures
        r.0 == default_params(),
        r.1.len() == NUM_BOIDS,
        population_wf(r.1@),
        forall|i: int|
            0 <= i < r.1.len() ==> (Bounds {
                x_min: 0,
                x_max: X_SIZE,
                y_min: 0,
                y_max: Y_SIZE,
                z_min: 0,
                z_max: 0,
            }).holds(#[trigger] r.1@[i].position) && r.1@[i].color == WHITE,
{
    let params = Params::default();
    let bounds = Bounds::whole_domain();
    let mut boids_pop: Vec<Boid> = Vec::new();
    let mut k: usize = 0;
    while k < NUM_BOIDS
        invariant
            k <= NUM_BOIDS,
            boids_pop.len() == k,
            bounds == (Bounds {
                x_min: 0,
                x_max: X_SIZE,
                y_min: 0,
                y_max: Y_SIZE,
                z_min: 0,
                z_max: 0,
            }),
            forall|i: int|
                0 <= i < k ==> bounds.holds(#[trigger] boids_pop@[i].position) && boids_pop@[i].color
                    == WHITE && boids_pop@[i].wf(),
        decreases NUM_BOIDS - k,
    {
        let b = random_boid(rng, &bounds);
        boids_pop.push(b);
        k += 1;
    }
    (params, boids_pop)
}

} // verus!
