use crate::vector::{
    abs, bounded, comp, dist2, lemma_tdiv_bound, limit_speed, limited, norm2, sq, tdiv,
    tdiv_i128, Vec3, COORD_LIMIT,
};
use vstd::prelude::*;

verus! {

/// Fixed-point units in one world unit.
pub const UNIT: i64 = 1000;

/// A weight of `WEIGHT_SCALE` stands for a factor of one.
pub const WEIGHT_SCALE: i64 = 1000;

/// Largest weight that a tick accepts: a factor of one thousand.
pub const MAX_WEIGHT: i64 = 1_000_000;

/// `MAX_WEIGHT` as a factor.
pub const MAX_FACTOR: i64 = 1000;

/// Largest population that one tick accepts.
pub const MAX_POPULATION: usize = 1_000_000;

/// Default width of the domain.
pub const X_SIZE: i64 = 100_000;

/// Default height of the domain.
pub const Y_SIZE: i64 = 100_000;

/// One agent: where it is, how it moves, and a display tag that the simulation carries along.
#[derive(Clone, Copy, Debug, PartialEq, Eq)]
pub struct Boid {
    pub position: Vec3,
    pub velocity: Vec3,
    pub color: u32,
}

impl Boid {
    /// Position and velocity lie within the representable domain.
    pub open spec fn wf(self) -> bool {
        bounded(self.position, COORD_LIMIT as int) && bounded(self.velocity, COORD_LIMIT as int)
    }

    /// Magnitude of the velocity, rounded down.
    pub fn speed(&self) -> (r: i64)
        requires
            bounded(self.velocity, COORD_LIMIT as int),
        ensures
            r == crate::vector::floor_sqrt(norm2(self.velocity)),
    {
        let x = self.velocity.x as i128;
        let y = self.velocity.y as i128;
        let z = self.velocity.z as i128;
        assert(0 <= x * x <= COORD_LIMIT * COORD_LIMIT && 0 <= y * y <= COORD_LIMIT * COORD_LIMIT
            && 0 <= z * z <= COORD_LIMIT * COORD_LIMIT) by (nonlinear_arith)
            requires
                -COORD_LIMIT <= x <= COORD_LIMIT,
                -COORD_LIMIT <= y <= COORD_LIMIT,
                -COORD_LIMIT <= z <= COORD_LIMIT,
        ;
        let s = crate::vector::sqrt_floor(x * x + y * y + z * z);
        assert(s <= 2 * COORD_LIMIT) by (nonlinear_arith)
            requires
                s * s <= 3 * COORD_LIMIT * COORD_LIMIT,
                s >= 0,
        ;
        s as i64
    }
}

/// Configuration of one tick. Weights are in thousandths, up to `MAX_WEIGHT`; distances are in
/// fixed-point units.
#[derive(Clone, Copy, Debug)]
pub struct Params {
    pub coherence: i64,
    pub separation: i64,
    pub avoid_factor: i64,
    pub alignment: i64,
    pub visual_range: i64,
    pub speed_limit: i64,
    pub margin: Vec3,
    pub turn_factor: i64,
    pub extent: Vec3,
}

/// A weight that a tick accepts.
pub open spec fn is_weight(w: int) -> bool {
    -MAX_WEIGHT <= w <= MAX_WEIGHT
}

/// A distance, speed or extent that a tick accepts.
pub open spec fn is_length(d: int) -> bool {
    0 <= d <= COORD_LIMIT
}

impl Params {
    /// Every weight and length is within what a tick accepts.
    pub open spec fn wf(self) -> bool {
        &&& is_weight(self.coherence as int)
        &&& is_weight(self.avoid_factor as int)
        &&& is_weight(self.alignment as int)
        &&& is_length(self.separation as int)
        &&& is_length(self.visual_range as int)
        &&& is_length(self.speed_limit as int)
        &&& is_length(self.turn_factor as int)
        &&& forall|a: int| 0 <= a < 3 ==> is_length(#[trigger] comp(self.margin, a))
        &&& forall|a: int| 0 <= a < 3 ==> is_length(#[trigger] comp(self.extent, a))
    }
}

/// Default side of a cubic domain.
pub const SOLID_SIZE: i64 = 50_000;

/// The default parameters: a planar domain of 100 by 100 world units.
pub open spec fn default_params() -> Params {
    Params {
        coherence: 50,
        separation: 500,
        avoid_factor: 50,
        alignment: 500,
        visual_range: 10_000,
        speed_limit: 1000,
        margin: Vec3 { x: 1000, y: 1000, z: 0 },
        turn_factor: 100_000,
        extent: Vec3 { x: X_SIZE, y: Y_SIZE, z: 0 },
    }
}

impl Default for Params {
    /// A planar domain of 100 by 100 world units.
    fn default() -> (r: Params)
        ensures
            r == default_params(),
            r.wf(),
    {
        Params {
            coherence: 50,
            separation: 500,
            avoid_factor: 50,
            alignment: 500,
            visual_range: 10 * UNIT,
            speed_limit: UNIT,
            margin: Vec3 { x: X_SIZE / 100, y: Y_SIZE / 100, z: 0 },
            turn_factor: 100 * UNIT,
            extent: Vec3 { x: X_SIZE, y: Y_SIZE, z: 0 },
        }
    }
}

impl Params {
    /// Default parameters for a cubic domain of 50 world units on a side.
    pub fn solid_default() -> (r: Params)
        ensures
            r == (Params {
                coherence: 50,
                separation: 500,
                avoid_factor: 50,
                alignment: 500,
                visual_range: 10_000,
                speed_limit: 10_000,
                margin: Vec3 { x: 500, y: 500, z: 500 },
                turn_factor: 100_000,
                extent: Vec3 { x: SOLID_SIZE, y: SOLID_SIZE, z: SOLID_SIZE },
            }),
            r.wf(),
    {
        Params {
            coherence: 50,
            separation: 500,
            avoid_factor: 50,
            alignment: 500,
            visual_range: 10 * UNIT,
            speed_limit: 10 * UNIT,
            margin: Vec3 { x: SOLID_SIZE / 100, y: SOLID_SIZE / 100, z: SOLID_SIZE / 100 },
            turn_factor: 100 * UNIT,
            extent: Vec3 { x: SOLID_SIZE, y: SOLID_SIZE, z: SOLID_SIZE },
        }
    }
}

/// A population that a tick accepts: not too large, every agent within the domain.
pub open spec fn population_wf(pop: Seq<Boid>) -> bool {
    pop.len() <= MAX_POPULATION && forall|i: int| 0 <= i < pop.len() ==> (#[trigger] pop[i]).wf()
}

/// `q` lies strictly closer to `p` than `radius`.
pub open spec fn in_range(p: Vec3, q: Vec3, radius: int) -> bool {
    dist2(p, q) < radius * radius
}

/// The agents among the first `k` of `pop`, other than agent `i`, within `radius` of agent `i`,
/// in their order in `pop`.
pub open spec fn neighbors_upto(pop: Seq<Boid>, i: int, radius: int, k: int) -> Seq<Boid>
    decreases k,
{
    if k <= 0 {
        seq![]
    } else {
        let before = neighbors_upto(pop, i, radius, k - 1);
        if k - 1 != i && in_range(pop[i].position, pop[k - 1].position, radius) {
            before.push(pop[k - 1])
        } else {
            before
        }
    }
}

/// The neighbours of agent `i`: every other agent strictly within `radius`, in population order.
pub open spec fn neighbors(pop: Seq<Boid>, i: int, radius: int) -> Seq<Boid> {
    neighbors_upto(pop, i, radius, pop.len() as int)
}

/// The sum of `f` over `s`.
pub open spec fn sum_by(s: Seq<Boid>, f: spec_fn(Boid) -> int) -> int
    decreases s.len(),
{
    if s.len() == 0 {
        0
    } else {
        sum_by(s.drop_last(), f) + f(s.last())
    }
}

/// Component `a` of an agent's position.
pub open spec fn position_of(a: int) -> spec_fn(Boid) -> int {
    |b: Boid| comp(b.position, a)
}

/// Component `a` of an agent's velocity.
pub open spec fn velocity_of(a: int) -> spec_fn(Boid) -> int {
    |b: Boid| comp(b.velocity, a)
}

/// How far `p` lies from a neighbour along axis `a`, counted only for a neighbour closer than
/// `separation`.
pub open spec fn away_of(p: Vec3, separation: int, a: int) -> spec_fn(Boid) -> int {
    |b: Boid|
        if in_range(p, b.position, separation) {
            comp(p, a) - comp(b.position, a)
        } else {
            0
        }
}

/// The mean of `n` values of sum `sum`, rounded toward zero; zero for no values.
pub open spec fn mean(sum: int, n: int) -> int {
    if n == 0 {
        0
    } else {
        tdiv(sum, n)
    }
}

/// Applies a weight given in thousandths, rounding away from zero, so that a nonzero weight on a
/// nonzero value never vanishes.
pub open spec fn weighted_out(x: int, w: int) -> int {
    if x * w >= 0 {
        (x * w + (WEIGHT_SCALE - 1)) / WEIGHT_SCALE as int
    } else {
        -((-(x * w) + (WEIGHT_SCALE - 1)) / WEIGHT_SCALE as int)
    }
}

/// Applies a weight given in thousandths, rounding toward zero.
pub open spec fn weighted(x: int, w: int) -> int {
    tdiv(x * w, WEIGHT_SCALE as int)
}

/// Cohesion along axis `a`: toward the neighbours' centroid, zero without neighbours.
pub open spec fn cohesion(nb: Seq<Boid>, b: Boid, params: Params, a: int) -> int {
    if nb.len() == 0 {
        0
    } else {
        weighted(
            mean(sum_by(nb, position_of(a)), nb.len() as int) - comp(b.position, a),
            params.coherence as int,
        )
    }
}

/// Separation along axis `a`: away from the neighbours closer than the separation distance.
pub open spec fn separation(nb: Seq<Boid>, b: Boid, params: Params, a: int) -> int {
    weighted_out(
        sum_by(nb, away_of(b.position, params.separation as int, a)),
        params.avoid_factor as int,
    )
}

/// Alignment along axis `a`: toward the neighbours' mean velocity, zero without neighbours.
pub open spec fn alignment(nb: Seq<Boid>, b: Boid, params: Params, a: int) -> int {
    if nb.len() == 0 {
        0
    } else {
        weighted(
            mean(sum_by(nb, velocity_of(a)), nb.len() as int) - comp(b.velocity, a),
            params.alignment as int,
        )
    }
}

/// The constant push back into the domain along axis `a`.
pub open spec fn boundary_nudge(b: Boid, params: Params, a: int) -> int {
    if comp(b.position, a) < comp(params.margin, a) {
        params.turn_factor as int
    } else if comp(b.position, a) > comp(params.extent, a) - comp(params.margin, a) {
        -params.turn_factor
    } else {
        0
    }
}

/// Velocity of agent `i` along axis `a` after the three rules and the boundary nudge.
pub open spec fn steered(params: Params, pop: Seq<Boid>, i: int, a: int) -> int {
    let b = pop[i];
    let nb = neighbors(pop, i, params.visual_range as int);
    comp(b.velocity, a) + cohesion(nb, b, params, a) + separation(nb, b, params, a) + alignment(
        nb,
        b,
        params,
        a,
    ) + boundary_nudge(b, params, a)
}

/// Velocity of agent `i` along axis `a` in the next generation.
pub open spec fn next_velocity(params: Params, pop: Seq<Boid>, i: int, a: int) -> int {
    limited(
        steered(params, pop, i, 0),
        steered(params, pop, i, 1),
        steered(params, pop, i, 2),
        params.speed_limit as int,
        a,
    )
}

/// Keeps a coordinate within the representable domain.
pub open spec fn clamp_coord(x: int) -> int {
    if x > COORD_LIMIT {
        COORD_LIMIT as int
    } else if x < -COORD_LIMIT {
        -COORD_LIMIT
    } else {
        x
    }
}

/// Position of agent `i` along axis `a` in the next generation.
pub open spec fn next_position(params: Params, pop: Seq<Boid>, i: int, a: int) -> int {
    clamp_coord(comp(pop[i].position, a) + next_velocity(params, pop, i, a))
}

/// `out` is the generation that follows `pop` under `params`.
pub open spec fn is_next_generation(params: Params, pop: Seq<Boid>, out: Seq<Boid>) -> bool {
    &&& out.len() == pop.len()
    &&& forall|i: int| 0 <= i < pop.len() ==> #[trigger] out[i].color == pop[i].color
    &&& forall|i: int, a: int|
        0 <= i < pop.len() && 0 <= a < 3 ==> #[trigger] comp(out[i].velocity, a) == next_velocity(
            params,
            pop,
            i,
            a,
        )
    &&& forall|i: int, a: int|
        0 <= i < pop.len() && 0 <= a < 3 ==> #[trigger] comp(out[i].position, a) == next_position(
            params,
            pop,
            i,
            a,
        )
}

/// Largest magnitude of one neighbour's contribution to a sum.
pub const SPAN: i64 = 1_000_000_000;

/// Largest magnitude of a sum over a population.
pub const SUM_LIMIT: i64 = 1_000_000_000_000_000;

proof fn lemma_sum_by_bound(s: Seq<Boid>, f: spec_fn(Boid) -> int, bound: int)
    requires
        bound >= 0,
        forall|i: int| 0 <= i < s.len() ==> abs(#[trigger] f(s[i])) <= bound,
    ensures
        abs(sum_by(s, f)) <= s.len() * bound,
    decreases s.len(),
{
    if s.len() > 0 {
        let t = s.drop_last();
        assert forall|i: int| 0 <= i < t.len() implies abs(#[trigger] f(t[i])) <= bound by {
            assert(t[i] == s[i]);
        }
        lemma_sum_by_bound(t, f, bound);
        assert(abs(f(s[s.len() - 1])) <= bound);
        assert((t.len() + 1) * bound == t.len() * bound + bound) by (nonlinear_arith);
    }
}

proof fn lemma_sum_by_step(s: Seq<Boid>, k: int, f: spec_fn(Boid) -> int)
    requires
        0 <= k < s.len(),
    ensures
        sum_by(s.subrange(0, k + 1), f) == sum_by(s.subrange(0, k), f) + f(s[k]),
{
    assert(s.subrange(0, k + 1).drop_last() =~= s.subrange(0, k));
}

proof fn lemma_prefix_bound(s: Seq<Boid>, k: int, f: spec_fn(Boid) -> int, bound: int)
    requires
        0 <= k <= s.len(),
        bound >= 0,
        forall|i: int| 0 <= i < s.len() ==> abs(#[trigger] f(s[i])) <= bound,
    ensures
        abs(sum_by(s.subrange(0, k), f)) <= k * bound,
{
    let t = s.subrange(0, k);
    assert forall|i: int| 0 <= i < t.len() implies abs(#[trigger] f(t[i])) <= bound by {
        assert(t[i] == s[i]);
    }
    lemma_sum_by_bound(t, f, bound);
}

proof fn lemma_neighbors_wf(pop: Seq<Boid>, i: int, radius: int, k: int)
    requires
        population_wf(pop),
        0 <= i < pop.len(),
        0 <= k <= pop.len(),
    ensures
        neighbors_upto(pop, i, radius, k).len() <= k,
        population_wf(neighbors_upto(pop, i, radius, k)),
    decreases k,
{
    if k > 0 {
        lemma_neighbors_wf(pop, i, radius, k - 1);
        let before = neighbors_upto(pop, i, radius, k - 1);
        if k - 1 != i && in_range(pop[i].position, pop[k - 1].position, radius) {
            let after = before.push(pop[k - 1]);
            assert forall|j: int| 0 <= j < after.len() implies (#[trigger] after[j]).wf() by {
                if j < before.len() {
                    assert(after[j] == before[j]);
                }
            }
        }
    }
}

proof fn lemma_fields_bounded(s: Seq<Boid>)
    requires
        population_wf(s),
    ensures
        forall|a: int, i: int|
            0 <= a < 3 && 0 <= i < s.len() ==> abs(#[trigger] position_of(a)(s[i]))
                <= COORD_LIMIT && abs(#[trigger] velocity_of(a)(s[i])) <= COORD_LIMIT,
{
    assert forall|a: int, i: int| 0 <= a < 3 && 0 <= i < s.len() implies abs(
        #[trigger] position_of(a)(s[i]),
    ) <= COORD_LIMIT && abs(#[trigger] velocity_of(a)(s[i])) <= COORD_LIMIT by {
        assert(s[i].wf());
    }
}

/// Squared distance between two points of the domain.
fn distance2(p: Vec3, q: Vec3) -> (r: i64)
    requires
        bounded(p, COORD_LIMIT as int),
        bounded(q, COORD_LIMIT as int),
    ensures
        r == dist2(p, q),
{
    let dx = p.x - q.x;
    let dy = p.y - q.y;
    let dz = p.z - q.z;
    assert(0 <= dx * dx <= SPAN * SPAN && 0 <= dy * dy <= SPAN * SPAN && 0 <= dz * dz <= SPAN
        * SPAN) by (nonlinear_arith)
        requires
            -SPAN <= dx <= SPAN,
            -SPAN <= dy <= SPAN,
            -SPAN <= dz <= SPAN,
    ;
    dx * dx + dy * dy + dz * dz
}

/// The agents other than agent `i` that lie strictly within `radius` of it, in population order.
fn boids_in_range(i: usize, radius: i64, boids_pop: &Vec<Boid>) -> (r: Vec<Boid>)
    requires
        population_wf(boids_pop@),
        i < boids_pop.len(),
        is_length(radius as int),
    ensures
        r@ == neighbors(boids_pop@, i as int, radius as int),
        population_wf(r@),
{
    let me = boids_pop[i].position;
    assert(0 <= radius * radius <= COORD_LIMIT * COORD_LIMIT) by (nonlinear_arith)
        requires
            0 <= radius <= COORD_LIMIT,
    ;
    let r2 = radius * radius;
    let mut out: Vec<Boid> = Vec::new();
    let mut j: usize = 0;
    while j < boids_pop.len()
        invariant
            population_wf(boids_pop@),
            i < boids_pop.len(),
            j <= boids_pop.len(),
            me == boids_pop@[i as int].position,
            r2 == radius * radius,
            out@ == neighbors_upto(boids_pop@, i as int, radius as int, j as int),
        decreases boids_pop.len() - j,
    {
        let other = boids_pop[j];
        assert(boids_pop@[i as int].wf() && boids_pop@[j as int].wf());
        if j != i && distance2(me, other.position) < r2 {
            out.push(other);
        }
        j += 1;
    }
    proof {
        lemma_neighbors_wf(boids_pop@, i as int, radius as int, boids_pop.len() as int);
    }
    out
}

/// Applies a weight given in thousandths.
fn weigh(x: i128, w: i64) -> (r: i128)
    requires
        abs(x as int) <= SUM_LIMIT,
        is_weight(w as int),
    ensures
        r == weighted(x as int, w as int),
        abs(r as int) <= abs(x as int) * MAX_FACTOR,
{
    assert(abs(x * w) <= abs(x as int) * MAX_WEIGHT && abs(x as int) * MAX_WEIGHT <= SUM_LIMIT
        * MAX_WEIGHT) by (nonlinear_arith)
        requires
            abs(x as int) <= SUM_LIMIT,
            -MAX_WEIGHT <= w <= MAX_WEIGHT,
    ;
    let r = tdiv_i128(x * (w as i128), WEIGHT_SCALE as i128);
    proof {
        lemma_tdiv_bound(x * w, WEIGHT_SCALE as int);
        assert(abs(r as int) * WEIGHT_SCALE <= abs(x as int) * MAX_WEIGHT);
    }
    r
}

/// Applies a weight given in thousandths, rounding away from zero.
fn weigh_out(x: i128, w: i64) -> (r: i128)
    requires
        abs(x as int) <= SUM_LIMIT,
        is_weight(w as int),
    ensures
        r == weighted_out(x as int, w as int),
        abs(r as int) <= abs(x as int) * MAX_FACTOR + 1,
{
    assert(abs(x * w) <= abs(x as int) * MAX_WEIGHT && abs(x as int) * MAX_WEIGHT <= SUM_LIMIT
        * MAX_WEIGHT) by (nonlinear_arith)
        requires
            abs(x as int) <= SUM_LIMIT,
            -MAX_WEIGHT <= w <= MAX_WEIGHT,
    ;
    let p = x * (w as i128);
    let r = if p >= 0 {
        (p + (WEIGHT_SCALE - 1) as i128) / WEIGHT_SCALE as i128
    } else {
        -((-p + (WEIGHT_SCALE - 1) as i128) / WEIGHT_SCALE as i128)
    };
    assert(abs(r as int) * WEIGHT_SCALE <= abs(p as int) + WEIGHT_SCALE);
    r
}

/// The mean of `n` values of sum `sum`, each within `COORD_LIMIT`.
fn mean_of(sum: i64, n: usize) -> (r: i64)
    requires
        0 < n <= MAX_POPULATION,
        abs(sum as int) <= n * COORD_LIMIT,
    ensures
        r == mean(sum as int, n as int),
        abs(r as int) <= COORD_LIMIT,
{
    proof {
        lemma_tdiv_bound(sum as int, n as int);
        let q = abs(tdiv(sum as int, n as int));
        assert(q <= COORD_LIMIT) by (nonlinear_arith)
            requires
                q * n <= n * COORD_LIMIT,
                n > 0,
        ;
    }
    tdiv_i128(sum as i128, n as i128) as i64
}

/// Component `a` of an agent's position (`of_position`) or of its velocity.
pub open spec fn field_of(of_position: bool, a: int) -> spec_fn(Boid) -> int {
    if of_position {
        position_of(a)
    } else {
        velocity_of(a)
    }
}

/// The mean position (`of_position`: the centroid) or the mean velocity of a group of agents,
/// each component rounded toward zero; the zero vector for an empty group.
fn flock_mean(boids_pop: &Vec<Boid>, of_position: bool) -> (m: Vec3)
    requires
        population_wf(boids_pop@),
    ensures
        forall|a: int|
            0 <= a < 3 ==> comp(m, a) == mean(
                sum_by(boids_pop@, #[trigger] field_of(of_position, a)),
                boids_pop.len() as int,
            ),
        bounded(m, COORD_LIMIT as int),
{
    if boids_pop.len() == 0 {
        return Vec3 { x: 0, y: 0, z: 0 };
    }
    let ghost s = boids_pop@;
    let ghost f0 = field_of(of_position, 0);
    let ghost f1 = field_of(of_position, 1);
    let ghost f2 = field_of(of_position, 2);
    let mut sx: i64 = 0;
    let mut sy: i64 = 0;
    let mut sz: i64 = 0;
    let mut k: usize = 0;
    while k < boids_pop.len()
        invariant
            s == boids_pop@,
            population_wf(s),
            k <= s.len(),
            f0 == field_of(of_position, 0),
            f1 == field_of(of_position, 1),
            f2 == field_of(of_position, 2),
            sx == sum_by(s.subrange(0, k as int), f0),
            sy == sum_by(s.subrange(0, k as int), f1),
            sz == sum_by(s.subrange(0, k as int), f2),
        decreases s.len() - k,
    {
        let b = boids_pop[k];
        let c = if of_position {
            b.position
        } else {
            b.velocity
        };
        proof {
            lemma_fields_bounded(s);
            lemma_sum_by_step(s, k as int, f0);
            lemma_sum_by_step(s, k as int, f1);
            lemma_sum_by_step(s, k as int, f2);
            lemma_prefix_bound(s, k + 1, f0, COORD_LIMIT as int);
            lemma_prefix_bound(s, k + 1, f1, COORD_LIMIT as int);
            lemma_prefix_bound(s, k + 1, f2, COORD_LIMIT as int);
        }
        sx = sx + c.x;
        sy = sy + c.y;
        sz = sz + c.z;
        k += 1;
    }
    assert(s.subrange(0, s.len() as int) =~= s);
    proof {
        lemma_fields_bounded(s);
        lemma_prefix_bound(s, s.len() as int, f0, COORD_LIMIT as int);
        lemma_prefix_bound(s, s.len() as int, f1, COORD_LIMIT as int);
        lemma_prefix_bound(s, s.len() as int, f2, COORD_LIMIT as int);
    }
    let n = boids_pop.len();
    Vec3 { x: mean_of(sx, n), y: mean_of(sy, n), z: mean_of(sz, n) }
}

/// Cohesion: the velocity change that steers `boid` toward the centroid of its neighbours.
fn fly_towards_centre(boid: &Boid, params: &Params, nearby: &Vec<Boid>) -> (d: Vec3)
    requires
        boid.wf(),
        params.wf(),
        population_wf(nearby@),
    ensures
        forall|a: int| 0 <= a < 3 ==> #[trigger] comp(d, a) == cohesion(nearby@, *boid, *params, a),
        bounded(d, SPAN * MAX_FACTOR),
{
    if nearby.len() == 0 {
        return Vec3 { x: 0, y: 0, z: 0 };
    }
    let c = flock_mean(nearby, true);
    assert(forall|a: int| field_of(true, a) == position_of(a));
    let p = boid.position;
    Vec3 {
        x: weigh((c.x - p.x) as i128, params.coherence) as i64,
        y: weigh((c.y - p.y) as i128, params.coherence) as i64,
        z: weigh((c.z - p.z) as i128, params.coherence) as i64,
    }
}

/// Alignment: the velocity change that steers `boid` toward the mean velocity of its neighbours.
fn match_velocity(boid: &Boid, params: &Params, nearby: &Vec<Boid>) -> (d: Vec3)
    requires
        boid.wf(),
        params.wf(),
        population_wf(nearby@),
    ensures
        forall|a: int| 0 <= a < 3 ==> #[trigger] comp(d, a) == alignment(nearby@, *boid, *params, a),
        bounded(d, SPAN * MAX_FACTOR),
{
    if nearby.len() == 0 {
        return Vec3 { x: 0, y: 0, z: 0 };
    }
    let m = flock_mean(nearby, false);
    assert(forall|a: int| field_of(false, a) == velocity_of(a));
    let v = boid.velocity;
    Vec3 {
        x: weigh((m.x - v.x) as i128, params.alignment) as i64,
        y: weigh((m.y - v.y) as i128, params.alignment) as i64,
        z: weigh((m.z - v.z) as i128, params.alignment) as i64,
    }
}

proof fn lemma_away_bounded(s: Seq<Boid>, p: Vec3, separation: int)
    requires
        population_wf(s),
        bounded(p, COORD_LIMIT as int),
    ensures
        forall|a: int, i: int|
            0 <= a < 3 && 0 <= i < s.len() ==> abs(#[trigger] away_of(p, separation, a)(s[i]))
                <= SPAN,
{
    assert forall|a: int, i: int| 0 <= a < 3 && 0 <= i < s.len() implies abs(
        #[trigger] away_of(p, separation, a)(s[i]),
    ) <= SPAN by {
        assert(s[i].wf());
    }
}

/// Separation: the velocity change that steers `boid` away from neighbours that are too close.
fn avoid_others(boid: &Boid, params: &Params, nearby: &Vec<Boid>) -> (d: Vec3)
    requires
        boid.wf(),
        params.wf(),
        population_wf(nearby@),
    ensures
        forall|a: int| 0 <= a < 3 ==> #[trigger] comp(d, a) == separation(nearby@, *boid, *params, a),
        bounded(d, SUM_LIMIT * MAX_FACTOR + 1),
{
    let ghost s = nearby@;
    let p = boid.position;
    let ghost sep = params.separation as int;
    assert(0 <= params.separation * params.separation <= COORD_LIMIT * COORD_LIMIT)
        by (nonlinear_arith)
        requires
            0 <= params.separation <= COORD_LIMIT,
    ;
    let sep2 = params.separation * params.separation;
    let mut sx: i64 = 0;
    let mut sy: i64 = 0;
    let mut sz: i64 = 0;
    let mut k: usize = 0;
    while k < nearby.len()
        invariant
            s == nearby@,
            population_wf(s),
            bounded(p, COORD_LIMIT as int),
            p == boid.position,
            sep == params.separation,
            sep2 == sep * sep,
            k <= s.len(),
            sx == sum_by(s.subrange(0, k as int), away_of(p, sep, 0)),
            sy == sum_by(s.subrange(0, k as int), away_of(p, sep, 1)),
            sz == sum_by(s.subrange(0, k as int), away_of(p, sep, 2)),
        decreases s.len() - k,
    {
        let q = nearby[k].position;
        proof {
            assert(s[k as int].wf());
            lemma_away_bounded(s, p, sep);
            lemma_sum_by_step(s, k as int, away_of(p, sep, 0));
            lemma_sum_by_step(s, k as int, away_of(p, sep, 1));
            lemma_sum_by_step(s, k as int, away_of(p, sep, 2));
            lemma_prefix_bound(s, k + 1, away_of(p, sep, 0), SPAN as int);
            lemma_prefix_bound(s, k + 1, away_of(p, sep, 1), SPAN as int);
            lemma_prefix_bound(s, k + 1, away_of(p, sep, 2), SPAN as int);
        }
        if distance2(p, q) < sep2 {
            sx = sx + (p.x - q.x);
            sy = sy + (p.y - q.y);
            sz = sz + (p.z - q.z);
        }
        k += 1;
    }
    assert(s.subrange(0, s.len() as int) =~= s);
    proof {
        lemma_away_bounded(s, p, sep);
        lemma_prefix_bound(s, s.len() as int, away_of(p, sep, 0), SPAN as int);
        lemma_prefix_bound(s, s.len() as int, away_of(p, sep, 1), SPAN as int);
        lemma_prefix_bound(s, s.len() as int, away_of(p, sep, 2), SPAN as int);
    }
    Vec3 {
        x: weigh_out(sx as i128, params.avoid_factor) as i64,
        y: weigh_out(sy as i128, params.avoid_factor) as i64,
        z: weigh_out(sz as i128, params.avoid_factor) as i64,
    }
}

/// The push back along one axis: `turn` below `margin`, `-turn` above `extent - margin`.
fn nudge_axis(p: i64, margin: i64, extent: i64, turn: i64) -> (r: i64)
    requires
        is_length(margin as int),
        is_length(extent as int),
        is_length(turn as int),
    ensures
        r == (if p < margin {
            turn as int
        } else if p > extent - margin {
            -turn
        } else {
            0
        }),
{
    if p < margin {
        turn
    } else if p > extent - margin {
        -turn
    } else {
        0
    }
}

/// Boundary steering: a constant push toward the inside on each axis where `boid` is within the
/// margin of an edge of the domain.
fn keep_within_bounds(boid: &Boid, params: &Params) -> (d: Vec3)
    requires
        params.wf(),
    ensures
        forall|a: int| 0 <= a < 3 ==> #[trigger] comp(d, a) == boundary_nudge(*boid, *params, a),
        bounded(d, COORD_LIMIT as int),
{
    assert(is_length(comp(params.margin, 0)) && is_length(comp(params.margin, 1)) && is_length(
        comp(params.margin, 2),
    ));
    assert(is_length(comp(params.extent, 0)) && is_length(comp(params.extent, 1)) && is_length(
        comp(params.extent, 2),
    ));
    let p = boid.position;
    let m = params.margin;
    let e = params.extent;
    let t = params.turn_factor;
    Vec3 {
        x: nudge_axis(p.x, m.x, e.x, t),
        y: nudge_axis(p.y, m.y, e.y, t),
        z: nudge_axis(p.z, m.z, e.z, t),
    }
}

/// Agent `i` of the next generation.
fn next_boid(params: &Params, boids_pop: &Vec<Boid>, i: usize) -> (r: Boid)
    requires
        params.wf(),
        population_wf(boids_pop@),
        i < boids_pop.len(),
    ensures
        r.wf(),
        r.color == boids_pop@[i as int].color,
        norm2(r.velocity) <= params.speed_limit * params.speed_limit,
        forall|a: int|
            0 <= a < 3 ==> #[trigger] comp(r.velocity, a) == next_velocity(
                *params,
                boids_pop@,
                i as int,
                a,
            ),
        forall|a: int|
            0 <= a < 3 ==> #[trigger] comp(r.position, a) == next_position(
                *params,
                boids_pop@,
                i as int,
                a,
            ),
{
    let b = boids_pop[i];
    assert(b.wf());
    let nearby = boids_in_range(i, params.visual_range, boids_pop);
    let coh = fly_towards_centre(&b, params, &nearby);
    let sep = avoid_others(&b, params, &nearby);
    let ali = match_velocity(&b, params, &nearby);
    let nudge = keep_within_bounds(&b, params);
    let v = b.velocity;
    let raw = Vec3 {
        x: v.x + coh.x + sep.x + ali.x + nudge.x,
        y: v.y + coh.y + sep.y + ali.y + nudge.y,
        z: v.z + coh.z + sep.z + ali.z + nudge.z,
    };
    let ghost pop = boids_pop@;
    assert forall|a: int| 0 <= a < 3 implies #[trigger] comp(raw, a) == steered(
        *params,
        pop,
        i as int,
        a,
    ) by {
        assert(comp(coh, a) == cohesion(nearby@, b, *params, a));
        assert(comp(sep, a) == separation(nearby@, b, *params, a));
        assert(comp(ali, a) == alignment(nearby@, b, *params, a));
        assert(comp(nudge, a) == boundary_nudge(b, *params, a));
    }
    assert(comp(raw, 0) == steered(*params, pop, i as int, 0));
    assert(comp(raw, 1) == steered(*params, pop, i as int, 1));
    assert(comp(raw, 2) == steered(*params, pop, i as int, 2));
    let lv = limit_speed(raw, params.speed_limit);
    let lim = COORD_LIMIT;
    let px = b.position.x + lv.x;
    let py = b.position.y + lv.y;
    let pz = b.position.z + lv.z;
    let position = Vec3 {
        x: if px > lim {
            lim
        } else if px < -lim {
            -lim
        } else {
            px
        },
        y: if py > lim {
            lim
        } else if py < -lim {
            -lim
        } else {
            py
        },
        z: if pz > lim {
            lim
        } else if pz < -lim {
            -lim
        } else {
            pz
        },
    };
    let r = Boid { position, velocity: lv, color: b.color };
    assert(comp(r.velocity, 0) == next_velocity(*params, pop, i as int, 0));
    assert(comp(r.velocity, 1) == next_velocity(*params, pop, i as int, 1));
    assert(comp(r.velocity, 2) == next_velocity(*params, pop, i as int, 2));
    r
}

/// One tick: the next generation of `boids_pop`, computed from `boids_pop` alone, agent by agent
/// in the same order.
pub fn update_boids(params: &Params, boids_pop: &Vec<Boid>) -> (r: Vec<Boid>)
    requires
        params.wf(),
        population_wf(boids_pop@),
    ensures
        is_next_generation(*params, boids_pop@, r@),
        r.len() == boids_pop.len(),
        population_wf(r@),
        forall|i: int|
            0 <= i < r.len() ==> norm2(#[trigger] r@[i].velocity) <= params.speed_limit
                * params.speed_limit,
{
    let mut out: Vec<Boid> = Vec::new();
    let mut i: usize = 0;
    while i < boids_pop.len()
        invariant
            params.wf(),
            population_wf(boids_pop@),
            i <= boids_pop.len(),
            out.len() == i,
            forall|j: int| 0 <= j < i ==> (#[trigger] out@[j]).wf(),
            forall|j: int|
                0 <= j < i ==> norm2(#[trigger] out@[j].velocity) <= params.speed_limit
                    * params.speed_limit,
            forall|j: int| 0 <= j < i ==> #[trigger] out@[j].color == boids_pop@[j].color,
            forall|j: int, a: int|
                0 <= j < i && 0 <= a < 3 ==> #[trigger] comp(out@[j].velocity, a)
                    == next_velocity(*params, boids_pop@, j, a),
            forall|j: int, a: int|
                0 <= j < i && 0 <= a < 3 ==> #[trigger] comp(out@[j].position, a)
                    == next_position(*params, boids_pop@, j, a),
        decreases boids_pop.len() - i,
    {
        let b = next_boid(params, boids_pop, i);
        let ghost before = out@;
        out.push(b);
        proof {
            assert forall|j: int| 0 <= j <= i implies out@[j] == (if j < i {
                before[j]
            } else {
                b
            }) by {}
            assert forall|j: int, a: int| 0 <= j <= i && 0 <= a < 3 implies #[trigger] comp(
                out@[j].position,
                a,
            ) == next_position(*params, boids_pop@, j, a) by {
                if j < i {
                    assert(out@[j] == before[j]);
                    assert(comp(before[j].position, a) == next_position(*params, boids_pop@, j, a));
                } else {
                    assert(out@[j] == b);
                    assert(comp(b.position, a) == next_position(*params, boids_pop@, j, a));
                }
            }
        }
        i += 1;
    }
    out
}

/// An agent with no other agent within visual range gets no change from cohesion, separation or
/// alignment: before the speed limit, its velocity changes by the boundary nudge alone.
pub proof fn lemma_isolated_agent(params: Params, pop: Seq<Boid>, i: int)
    requires
        params.wf(),
        population_wf(pop),
        0 <= i < pop.len(),
        neighbors(pop, i, params.visual_range as int).len() == 0,
    ensures
        forall|a: int|
            0 <= a < 3 ==> #[trigger] steered(params, pop, i, a) == comp(pop[i].velocity, a)
                + boundary_nudge(pop[i], params, a),
{
    let nb = neighbors(pop, i, params.visual_range as int);
    assert forall|a: int| 0 <= a < 3 implies #[trigger] steered(params, pop, i, a) == comp(
        pop[i].velocity,
        a,
    ) + boundary_nudge(pop[i], params, a) by {
        assert(sum_by(nb, away_of(pop[i].position, params.separation as int, a)) == 0);
        assert(separation(nb, pop[i], params, a) == 0);
    }
}

/// The next generation is a function of the parameters and the current generation: two
/// results of a tick on the same inputs are identical.
pub proof fn lemma_update_deterministic(
    params: Params,
    pop: Seq<Boid>,
    out1: Seq<Boid>,
    out2: Seq<Boid>,
)
    requires
        is_next_generation(params, pop, out1),
        is_next_generation(params, pop, out2),
    ensures
        out1 == out2,
{
    assert forall|i: int| 0 <= i < out1.len() implies out1[i] == out2[i] by {
        assert(out1[i].color == pop[i].color && out2[i].color == pop[i].color);
        assert(comp(out1[i].velocity, 0) == comp(out2[i].velocity, 0));
        assert(comp(out1[i].velocity, 1) == comp(out2[i].velocity, 1));
        assert(comp(out1[i].velocity, 2) == comp(out2[i].velocity, 2));
        assert(comp(out1[i].position, 0) == comp(out2[i].position, 0));
        assert(comp(out1[i].position, 1) == comp(out2[i].position, 1));
        assert(comp(out1[i].position, 2) == comp(out2[i].position, 2));
    }
    assert(out1 =~= out2);
}

/// Every agent of a next generation moves no faster than the speed limit.
pub proof fn lemma_speed_bound(params: Params, pop: Seq<Boid>, out: Seq<Boid>)
    requires
        params.wf(),
        is_next_generation(params, pop, out),
    ensures
        forall|i: int|
            0 <= i < out.len() ==> norm2(#[trigger] out[i].velocity) <= params.speed_limit
                * params.speed_limit,
{
    assert forall|i: int| 0 <= i < out.len() implies norm2(#[trigger] out[i].velocity)
        <= params.speed_limit * params.speed_limit by {
        let c0 = steered(params, pop, i, 0);
        let c1 = steered(params, pop, i, 1);
        let c2 = steered(params, pop, i, 2);
        let l = params.speed_limit as int;
        assert(comp(out[i].velocity, 0) == limited(c0, c1, c2, l, 0));
        assert(comp(out[i].velocity, 1) == limited(c0, c1, c2, l, 1));
        assert(comp(out[i].velocity, 2) == limited(c0, c1, c2, l, 2));
        crate::vector::lemma_limited_within(c0, c1, c2, l);
    }
}

/// Along one axis, separation weighted above cohesion wins: for a neighbour at offset `d` (from
/// the agent to the neighbour), the combined push points away from it.
proof fn lemma_push_beats_pull(d: int, c: int, w: int)
    requires
        0 <= c < w,
    ensures
        d > 0 ==> weighted(d, c) + weighted_out(-d, w) < 0,
        d < 0 ==> weighted(d, c) + weighted_out(-d, w) > 0,
        d == 0 ==> weighted(d, c) + weighted_out(-d, w) == 0,
{
    if d != 0 {
        let e = abs(d);
        assert(e * c <= e * w - 1 && 0 <= e * c) by (nonlinear_arith)
            requires
                e >= 1,
                0 <= c,
                c + 1 <= w,
        ;
        let m = e * w;
        assert((e * c) / 1000 <= (m - 1) / 1000);
        assert((m + 999) / 1000 == (m - 1) / 1000 + 1);
        if d > 0 {
            assert(d * c == e * c && (-d) * w == -m) by (nonlinear_arith)
                requires
                    e == d,
                    m == e * w,
            ;
        } else {
            assert(d * c == -(e * c) && (-d) * w == m) by (nonlinear_arith)
                requires
                    e == -d,
                    m == e * w,
            ;
        }
    } else {
        assert(d * c == 0 && (-d) * w == 0);
    }
}

/// Along one axis: when the offset `d` between two agents grows by `u - w`, with `u` never
/// against `d` and `w` never along it, the offset's square does not shrink, and grows when `u`
/// is nonzero.
proof fn lemma_axis_grows(d: int, u: int, w: int)
    requires
        d > 0 ==> u >= 0 && w <= 0,
        d < 0 ==> u <= 0 && w >= 0,
        d == 0 ==> u == 0 && w == 0,
    ensures
        sq(d) <= sq(d + u - w),
        u != 0 ==> sq(d) < sq(d + u - w),
{
    let e = d + u - w;
    if d > 0 {
        assert(d * d <= e * e && (u != 0 ==> d * d < e * e)) by (nonlinear_arith)
            requires
                d > 0,
                e >= d + u,
                u >= 0,
        ;
    } else if d < 0 {
        assert(d * d <= e * e && (u != 0 ==> d * d < e * e)) by (nonlinear_arith)
            requires
                d < 0,
                e <= d + u,
                u <= 0,
        ;
    }
}

proof fn lemma_sq_neg(x: int)
    ensures
        sq(-x) == sq(x),
{
    assert((-x) * (-x) == x * x) by (nonlinear_arith);
}

/// What the rules give an agent at rest whose one neighbour `q`, also at rest, is closer than
/// the separation distance.
proof fn lemma_single_neighbour(params: Params, b: Boid, q: Boid, a: int)
    requires
        in_range(b.position, q.position, params.separation as int),
        b.velocity == (Vec3 { x: 0, y: 0, z: 0 }),
        q.velocity == (Vec3 { x: 0, y: 0, z: 0 }),
        0 <= a < 3,
    ensures
        cohesion(seq![q], b, params, a) == weighted(
            comp(q.position, a) - comp(b.position, a),
            params.coherence as int,
        ),
        separation(seq![q], b, params, a) == weighted_out(
            comp(b.position, a) - comp(q.position, a),
            params.avoid_factor as int,
        ),
        alignment(seq![q], b, params, a) == 0,
{
    let nb = seq![q];
    let empty = Seq::<Boid>::empty();
    assert(nb.len() == 1 && nb.last() == q);
    assert(nb.drop_last() =~= empty);
    assert(sum_by(empty, position_of(a)) == 0);
    assert(sum_by(empty, velocity_of(a)) == 0);
    assert(sum_by(empty, away_of(b.position, params.separation as int, a)) == 0);
    assert(sum_by(nb, position_of(a)) == comp(q.position, a));
    assert(sum_by(nb, velocity_of(a)) == 0);
    assert(sum_by(nb, away_of(b.position, params.separation as int, a)) == comp(b.position, a)
        - comp(q.position, a));
    assert(mean(comp(q.position, a), 1) == comp(q.position, a));
    assert(mean(0, 1) == 0);
    assert(weighted(0, params.alignment as int) == 0);
}

/// Two agents at rest that see each other, closer than the separation distance, with separation
/// weighted above cohesion, away from the domain's margins and from its representable edge, move
/// apart in one tick.
#[verifier::rlimit(60)]
pub proof fn lemma_close_pair_separates(params: Params, pop: Seq<Boid>, out: Seq<Boid>)
    requires
        params.wf(),
        pop.len() == 2,
        0 < dist2(pop[0].position, pop[1].position),
        in_range(pop[0].position, pop[1].position, params.separation as int),
        params.separation <= params.visual_range,
        pop[0].velocity == (Vec3 { x: 0, y: 0, z: 0 }),
        pop[1].velocity == (Vec3 { x: 0, y: 0, z: 0 }),
        0 <= params.coherence < params.avoid_factor,
        params.speed_limit > 0,
        forall|j: int, a: int|
            0 <= j < 2 && 0 <= a < 3 ==> comp(params.margin, a) <= #[trigger] comp(
                pop[j].position,
                a,
            ) <= comp(params.extent, a) - comp(params.margin, a),
        forall|j: int, a: int|
            0 <= j < 2 && 0 <= a < 3 ==> abs(#[trigger] comp(pop[j].position, a)) <= COORD_LIMIT
                - params.speed_limit,
        is_next_generation(params, pop, out),
    ensures
        dist2(out[0].position, out[1].position) > dist2(pop[0].position, pop[1].position),
{
    let p = pop[0];
    let q = pop[1];
    let sep = params.separation as int;
    let vr = params.visual_range as int;
    let l = params.speed_limit as int;
    // Each agent is the other's only neighbour.
    assert(sep * sep <= vr * vr) by (nonlinear_arith)
        requires
            0 <= sep <= vr,
    ;
    lemma_sq_neg(p.position.x - q.position.x);
    lemma_sq_neg(p.position.y - q.position.y);
    lemma_sq_neg(p.position.z - q.position.z);
    assert(dist2(q.position, p.position) == dist2(p.position, q.position));
    assert(neighbors_upto(pop, 0, vr, 0) =~= Seq::<Boid>::empty());
    assert(neighbors_upto(pop, 1, vr, 0) =~= Seq::<Boid>::empty());
    assert(neighbors_upto(pop, 0, vr, 1) =~= Seq::<Boid>::empty());
    assert(neighbors(pop, 0, vr) =~= seq![q]);
    assert(neighbors_upto(pop, 1, vr, 1) =~= seq![p]);
    assert(neighbors(pop, 1, vr) =~= seq![p]);
    assert(in_range(q.position, p.position, sep));
    // Along each axis, the rules push each agent away from the other.
    assert forall|a: int| 0 <= a < 3 implies {
        let d = comp(q.position, a) - comp(p.position, a);
        &&& #[trigger] steered(params, pop, 0, a) == weighted(d, params.coherence as int)
            + weighted_out(-d, params.avoid_factor as int)
        &&& steered(params, pop, 1, a) == weighted(-d, params.coherence as int) + weighted_out(
            d,
            params.avoid_factor as int,
        )
    } by {
        lemma_single_neighbour(params, p, q, a);
        lemma_single_neighbour(params, q, p, a);
        assert(comp(params.margin, a) <= comp(pop[0].position, a));
        assert(comp(params.margin, a) <= comp(pop[1].position, a));
        assert(comp(pop[0].position, a) <= comp(params.extent, a) - comp(params.margin, a));
        assert(comp(pop[1].position, a) <= comp(params.extent, a) - comp(params.margin, a));
    }
    let d0 = q.position.x - p.position.x;
    let d1 = q.position.y - p.position.y;
    let d2 = q.position.z - p.position.z;
    let u = |a: int| steered(params, pop, 0, a);
    let w = |a: int| steered(params, pop, 1, a);
    assert(steered(params, pop, 0, 0) == weighted(d0, params.coherence as int) + weighted_out(
        -d0,
        params.avoid_factor as int,
    ));
    assert(steered(params, pop, 0, 1) == weighted(d1, params.coherence as int) + weighted_out(
        -d1,
        params.avoid_factor as int,
    ));
    assert(steered(params, pop, 0, 2) == weighted(d2, params.coherence as int) + weighted_out(
        -d2,
        params.avoid_factor as int,
    ));
    assert(steered(params, pop, 1, 0) == weighted(-d0, params.coherence as int) + weighted_out(
        d0,
        params.avoid_factor as int,
    ));
    assert(steered(params, pop, 1, 1) == weighted(-d1, params.coherence as int) + weighted_out(
        d1,
        params.avoid_factor as int,
    ));
    assert(steered(params, pop, 1, 2) == weighted(-d2, params.coherence as int) + weighted_out(
        d2,
        params.avoid_factor as int,
    ));
    lemma_push_beats_pull(d0, params.coherence as int, params.avoid_factor as int);
    lemma_push_beats_pull(d1, params.coherence as int, params.avoid_factor as int);
    lemma_push_beats_pull(d2, params.coherence as int, params.avoid_factor as int);
    lemma_push_beats_pull(-d0, params.coherence as int, params.avoid_factor as int);
    lemma_push_beats_pull(-d1, params.coherence as int, params.avoid_factor as int);
    lemma_push_beats_pull(-d2, params.coherence as int, params.avoid_factor as int);
    // The speed limit keeps those directions, and the second agent keeps moving.
    let (a0, a1, a2) = (u(0), u(1), u(2));
    let (b0, b1, b2) = (w(0), w(1), w(2));
    assert(d0 != 0 || d1 != 0 || d2 != 0) by {
        if d0 == 0 && d1 == 0 && d2 == 0 {
            lemma_sq_neg(d0);
            assert(dist2(p.position, q.position) == 0);
        }
    }
    crate::vector::lemma_limited_moving(b0, b1, b2, l);
    crate::vector::lemma_limited_within(a0, a1, a2, l);
    crate::vector::lemma_limited_within(b0, b1, b2, l);
    assert forall|a: int| 0 <= a < 3 implies {
        let v = #[trigger] limited(a0, a1, a2, l, a);
        let z = limited(b0, b1, b2, l, a);
        let d = comp(q.position, a) - comp(p.position, a);
        &&& comp(out[0].velocity, a) == v
        &&& comp(out[1].velocity, a) == z
        &&& comp(out[0].position, a) == comp(p.position, a) + v
        &&& comp(out[1].position, a) == comp(q.position, a) + z
        &&& sq(d) <= sq(comp(out[1].position, a) - comp(out[0].position, a))
        &&& (z != 0 ==> sq(d) < sq(comp(out[1].position, a) - comp(out[0].position, a)))
    } by {
        let v = limited(a0, a1, a2, l, a);
        let z = limited(b0, b1, b2, l, a);
        crate::vector::lemma_limited_sign(a0, a1, a2, l, a);
        crate::vector::lemma_limited_sign(b0, b1, b2, l, a);
        crate::vector::lemma_squares_nonneg(
            limited(a0, a1, a2, l, 0),
            limited(a0, a1, a2, l, 1),
            limited(a0, a1, a2, l, 2),
        );
        crate::vector::lemma_squares_nonneg(
            limited(b0, b1, b2, l, 0),
            limited(b0, b1, b2, l, 1),
            limited(b0, b1, b2, l, 2),
        );
        crate::vector::lemma_square_bound(v, l);
        crate::vector::lemma_square_bound(z, l);
        assert(abs(comp(pop[0].position, a)) <= COORD_LIMIT - l);
        assert(abs(comp(pop[1].position, a)) <= COORD_LIMIT - l);
        lemma_axis_grows(comp(q.position, a) - comp(p.position, a), z, v);
    }
    let o0 = out[0].position;
    let o1 = out[1].position;
    lemma_sq_neg(o0.x - o1.x);
    lemma_sq_neg(o0.y - o1.y);
    lemma_sq_neg(o0.z - o1.z);
    assert(limited(b0, b1, b2, l, 0) != 0 || limited(b0, b1, b2, l, 1) != 0 || limited(
        b0,
        b1,
        b2,
        l,
        2,
    ) != 0);
}

/// Separation from one neighbour closer than the separation distance, under a positive weight,
/// points away from that neighbour along every axis on which they differ, and never rounds away.
pub proof fn lemma_separation_points_away(params: Params, b: Boid, q: Boid, a: int)
    requires
        in_range(b.position, q.position, params.separation as int),
        params.avoid_factor > 0,
        0 <= a < 3,
    ensures
        comp(b.position, a) > comp(q.position, a) ==> separation(seq![q], b, params, a) > 0,
        comp(b.position, a) < comp(q.position, a) ==> separation(seq![q], b, params, a) < 0,
        comp(b.position, a) == comp(q.position, a) ==> separation(seq![q], b, params, a) == 0,
{
    let nb = seq![q];
    let empty = Seq::<Boid>::empty();
    let f = away_of(b.position, params.separation as int, a);
    assert(nb.len() == 1 && nb.last() == q);
    assert(nb.drop_last() =~= empty);
    assert(sum_by(empty, f) == 0);
    let x = comp(b.position, a) - comp(q.position, a);
    assert(sum_by(nb, f) == x);
    let w = params.avoid_factor as int;
    assert(x > 0 ==> x * w >= 1) by (nonlinear_arith)
        requires
            w >= 1,
    ;
    assert(x < 0 ==> x * w <= -1) by (nonlinear_arith)
        requires
            w >= 1,
    ;
    assert(x == 0 ==> x * w == 0);
}

/// Over a whole tick, an agent with no other agent within visual range gets only the boundary
/// nudge and the speed limit, and then moves by its new velocity, provided it stays clear of the
/// representable edge.
pub proof fn lemma_isolated_agent_tick(params: Params, pop: Seq<Boid>, out: Seq<Boid>, i: int)
    requires
        params.wf(),
        population_wf(pop),
        0 <= i < pop.len(),
        neighbors(pop, i, params.visual_range as int).len() == 0,
        forall|a: int|
            0 <= a < 3 ==> abs(#[trigger] comp(pop[i].position, a)) <= COORD_LIMIT
                - params.speed_limit,
        is_next_generation(params, pop, out),
    ensures
        forall|a: int|
            0 <= a < 3 ==> #[trigger] comp(out[i].velocity, a) == limited(
                comp(pop[i].velocity, 0) + boundary_nudge(pop[i], params, 0),
                comp(pop[i].velocity, 1) + boundary_nudge(pop[i], params, 1),
                comp(pop[i].velocity, 2) + boundary_nudge(pop[i], params, 2),
                params.speed_limit as int,
                a,
            ) && comp(out[i].position, a) == comp(pop[i].position, a) + comp(out[i].velocity, a),
        out[i].color == pop[i].color,
{
    lemma_isolated_agent(params, pop, i);
    let l = params.speed_limit as int;
    let c0 = steered(params, pop, i, 0);
    let c1 = steered(params, pop, i, 1);
    let c2 = steered(params, pop, i, 2);
    crate::vector::lemma_limited_within(c0, c1, c2, l);
    crate::vector::lemma_squares_nonneg(
        limited(c0, c1, c2, l, 0),
        limited(c0, c1, c2, l, 1),
        limited(c0, c1, c2, l, 2),
    );
    assert forall|a: int| 0 <= a < 3 implies #[trigger] comp(out[i].velocity, a) == limited(
        comp(pop[i].velocity, 0) + boundary_nudge(pop[i], params, 0),
        comp(pop[i].velocity, 1) + boundary_nudge(pop[i], params, 1),
        comp(pop[i].velocity, 2) + boundary_nudge(pop[i], params, 2),
        params.speed_limit as int,
        a,
    ) && comp(out[i].position, a) == comp(pop[i].position, a) + comp(out[i].velocity, a) by {
        assert(c0 == steered(params, pop, i, 0));
        crate::vector::lemma_square_bound(limited(c0, c1, c2, l, a), l);
    }
}

/// A lone agent at rest, inside the low margin on one axis and within the margins on the
/// others, gets exactly the turn factor along that axis, when the turn factor is within the
/// speed limit.
pub proof fn lemma_low_edge_turn(params: Params, b: Boid, out: Seq<Boid>, axis: int)
    requires
        params.wf(),
        b.wf(),
        0 <= axis < 3,
        b.velocity == (Vec3 { x: 0, y: 0, z: 0 }),
        comp(b.position, axis) < comp(params.margin, axis),
        forall|a: int|
            0 <= a < 3 && a != axis ==> comp(params.margin, a) <= #[trigger] comp(b.position, a)
                <= comp(params.extent, a) - comp(params.margin, a),
        params.turn_factor <= params.speed_limit,
        is_next_generation(params, seq![b], out),
    ensures
        comp(out[0].velocity, axis) == params.turn_factor,
        forall|a: int| 0 <= a < 3 && a != axis ==> #[trigger] comp(out[0].velocity, a) == 0,
{
    let pop = seq![b];
    assert(neighbors_upto(pop, 0, params.visual_range as int, 0) =~= Seq::<Boid>::empty());
    assert(neighbors(pop, 0, params.visual_range as int) =~= Seq::<Boid>::empty());
    assert(population_wf(pop)) by {
        assert(pop[0] == b);
    }
    lemma_isolated_agent(params, pop, 0);
    let t = params.turn_factor as int;
    let l = params.speed_limit as int;
    let c0 = steered(params, pop, 0, 0);
    let c1 = steered(params, pop, 0, 1);
    let c2 = steered(params, pop, 0, 2);
    assert forall|a: int| 0 <= a < 3 implies #[trigger] steered(params, pop, 0, a) == (if a
        == axis {
        t
    } else {
        0
    }) by {
        assert(pop[0] == b);
        if a != axis {
            assert(comp(params.margin, a) <= comp(b.position, a));
        }
    }
    assert(c0 == steered(params, pop, 0, 0));
    assert(c1 == steered(params, pop, 0, 1));
    assert(c2 == steered(params, pop, 0, 2));
    assert(sq(c0) + sq(c1) + sq(c2) == t * t);
    assert(t * t <= l * l) by (nonlinear_arith)
        requires
            0 <= t <= l,
    ;
    assert(comp(out[0].velocity, axis) == limited(c0, c1, c2, l, axis));
    assert forall|a: int| 0 <= a < 3 && a != axis implies #[trigger] comp(out[0].velocity, a)
        == 0 by {
        assert(comp(out[0].velocity, a) == limited(c0, c1, c2, l, a));
    }
}

} // verus!
