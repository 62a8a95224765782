use boids::flock::{Params, SOLID_SIZE, UNIT, X_SIZE, Y_SIZE};
use boids::init::{
    random_boid, range_scale, reset, rvec2_range, rvec3_range, Bounds, NUM_BOIDS, START_SPEED, WHITE,
};
use boids::vector::{limit_speed, Vec3};
use boids::{update_boids, Boid};

fn v(x: i64, y: i64, z: i64) -> Vec3 {
    Vec3 { x, y, z }
}

fn boid(position: Vec3, velocity: Vec3) -> Boid {
    Boid { position, velocity, color: 7 }
}

fn norm2(a: Vec3) -> i128 {
    let (x, y, z) = (a.x as i128, a.y as i128, a.z as i128);
    x * x + y * y + z * z
}

fn dist2(a: Vec3, b: Vec3) -> i128 {
    norm2(v(a.x - b.x, a.y - b.y, a.z - b.z))
}

fn centre() -> Vec3 {
    v(X_SIZE / 2, Y_SIZE / 2, 0)
}

#[test]
fn default_params_values() {
    let p = Params::default();
    assert_eq!(p.coherence, 50);
    assert_eq!(p.separation, 500);
    assert_eq!(p.avoid_factor, 50);
    assert_eq!(p.alignment, 500);
    assert_eq!(p.visual_range, 10 * UNIT);
    assert_eq!(p.speed_limit, UNIT);
    assert_eq!(p.margin, v(1000, 1000, 0));
    assert_eq!(p.turn_factor, 100 * UNIT);
    assert_eq!(p.extent, v(X_SIZE, Y_SIZE, 0));
}

#[test]
fn centred_still_agent_stays_put() {
    let pop = vec![boid(centre(), v(0, 0, 0))];
    let next = update_boids(&Params::default(), &pop);
    assert_eq!(next.len(), 1);
    assert_eq!(next[0].velocity, v(0, 0, 0));
    assert_eq!(next[0].position, centre());
    assert_eq!(next[0].color, 7);
}

#[test]
fn close_pair_moves_apart() {
    let mut p = Params::default();
    p.coherence = 0;
    let a = boid(centre(), v(0, 0, 0));
    let b = boid(v(X_SIZE / 2 + 200, Y_SIZE / 2, 0), v(0, 0, 0));
    let before = dist2(a.position, b.position);
    let next = update_boids(&p, &vec![a, b]);
    let after = dist2(next[0].position, next[1].position);
    assert!(after > before);
    assert_eq!(next[0].velocity, v(-10, 0, 0));
    assert_eq!(next[1].velocity, v(10, 0, 0));
}

#[test]
fn cohesion_and_separation_balance_at_default_weights() {
    let a = boid(centre(), v(0, 0, 0));
    let b = boid(v(X_SIZE / 2 + 200, Y_SIZE / 2, 0), v(0, 0, 0));
    let next = update_boids(&Params::default(), &vec![a, b]);
    assert_eq!(next[0].velocity, v(0, 0, 0));
    assert_eq!(next[1].velocity, v(0, 0, 0));
}

#[test]
fn low_edge_gives_exact_turn() {
    let mut p = Params::default();
    p.margin = v(5 * UNIT, 5 * UNIT, 0);
    p.turn_factor = 500;
    let a = boid(v(p.margin.x - UNIT, Y_SIZE / 2, 0), v(0, 0, 0));
    let next = update_boids(&p, &vec![a]);
    assert_eq!(next[0].velocity, v(500, 0, 0));
    assert_eq!(next[0].position, v(p.margin.x - UNIT + 500, Y_SIZE / 2, 0));
}

#[test]
fn high_edge_turns_back() {
    let mut p = Params::default();
    p.turn_factor = 300;
    let a = boid(v(X_SIZE - 10, Y_SIZE / 2, 0), v(0, 0, 0));
    let next = update_boids(&p, &vec![a]);
    assert_eq!(next[0].velocity, v(-300, 0, 0));
}

#[test]
fn double_speed_is_halved() {
    let p = Params::default();
    let a = boid(centre(), v(2 * p.speed_limit, 0, 0));
    let next = update_boids(&p, &vec![a]);
    assert_eq!(next[0].velocity, v(p.speed_limit, 0, 0));
    assert_eq!(next[0].speed(), p.speed_limit);
}

#[test]
fn double_speed_diagonal_keeps_direction() {
    let p = Params::default();
    let a = boid(centre(), v(1200, -1600, 0));
    let next = update_boids(&p, &vec![a]);
    assert_eq!(next[0].velocity, v(600, -800, 0));
    assert_eq!(next[0].speed(), 1000);
}

#[test]
fn limit_keeps_slow_and_zero_velocities() {
    assert_eq!(limit_speed(v(0, 0, 0), 1000), v(0, 0, 0));
    assert_eq!(limit_speed(v(300, -400, 0), 500), v(300, -400, 0));
    assert_eq!(limit_speed(v(0, 0, -3000), 1000), v(0, 0, -1000));
}

#[test]
fn limit_bounds_odd_magnitudes() {
    let r = limit_speed(v(1, 1, 1), 1);
    assert_eq!(r, v(1, 0, 0));
    let r = limit_speed(v(12345, -6789, 1011), 1000);
    assert!(norm2(r) <= 1000 * 1000);
    assert!(r.x > 0 && r.y < 0 && r.z > 0);
}

#[test]
fn isolated_agent_gets_only_boundary_and_limit() {
    let p = Params::default();
    let far = boid(v(10_000, 10_000, 0), v(0, 0, 0));
    let lone = boid(centre(), v(100, 200, 0));
    let next = update_boids(&p, &vec![far, lone]);
    assert_eq!(next[1].velocity, v(100, 200, 0));
    assert_eq!(next[1].position, v(X_SIZE / 2 + 100, Y_SIZE / 2 + 200, 0));
}

#[test]
fn neighbour_at_exact_visual_range_is_ignored() {
    let p = Params::default();
    let a = boid(centre(), v(0, 0, 0));
    let b = boid(v(X_SIZE / 2 + p.visual_range, Y_SIZE / 2, 0), v(500, 0, 0));
    let next = update_boids(&p, &vec![a, b]);
    assert_eq!(next[0].velocity, v(0, 0, 0));
}

#[test]
fn alignment_uses_mean_velocity() {
    let mut p = Params::default();
    p.coherence = 0;
    p.avoid_factor = 0;
    let a = boid(centre(), v(0, 0, 0));
    let b = boid(v(X_SIZE / 2 + 2000, Y_SIZE / 2, 0), v(400, 0, 0));
    let c = boid(v(X_SIZE / 2 - 2000, Y_SIZE / 2, 0), v(200, 0, 0));
    let next = update_boids(&p, &vec![a, b, c]);
    assert_eq!(next[0].velocity, v(150, 0, 0));
}

#[test]
fn cohesion_pulls_toward_centroid() {
    let mut p = Params::default();
    p.alignment = 0;
    let a = boid(centre(), v(0, 0, 0));
    let b = boid(v(X_SIZE / 2 + 4000, Y_SIZE / 2 + 2000, 0), v(0, 0, 0));
    let c = boid(v(X_SIZE / 2 + 4000, Y_SIZE / 2 - 2000, 0), v(0, 0, 0));
    let next = update_boids(&p, &vec![a, b, c]);
    assert_eq!(next[0].velocity, v(200, 0, 0));
}

#[test]
fn empty_population_stays_empty() {
    let next = update_boids(&Params::default(), &Vec::new());
    assert!(next.is_empty());
}

#[test]
fn ticks_keep_length_and_speed_bound() {
    let p = Params::default();
    let mut rng = rand::thread_rng();
    let mut pop: Vec<Boid> = (0..60).map(|_| random_boid(&mut rng, &Bounds::whole_domain())).collect();
    for _ in 0..20 {
        let next = update_boids(&p, &pop);
        assert_eq!(next.len(), pop.len());
        for b in next.iter() {
            assert!(norm2(b.velocity) <= (p.speed_limit as i128) * (p.speed_limit as i128));
            assert!(b.speed() <= p.speed_limit);
        }
        pop = next;
    }
}

#[test]
fn update_is_deterministic() {
    let p = Params::default();
    let mut rng = rand::thread_rng();
    let pop: Vec<Boid> = (0..40).map(|_| random_boid(&mut rng, &Bounds::whole_domain())).collect();
    assert_eq!(update_boids(&p, &pop), update_boids(&p, &pop));
}

#[test]
fn speed_rounds_down() {
    assert_eq!(boid(centre(), v(3, 4, 0)).speed(), 5);
    assert_eq!(boid(centre(), v(1, 1, 1)).speed(), 1);
    assert_eq!(boid(centre(), v(0, 0, 0)).speed(), 0);
}

#[test]
fn range_scale_maps_linearly() {
    assert_eq!(range_scale(0, 0, 10, 100, 200), 100);
    assert_eq!(range_scale(10, 0, 10, 100, 200), 200);
    assert_eq!(range_scale(5, 0, 10, -100, 100), 0);
    assert_eq!(range_scale(3, 1, 5, 0, 10), 5);
}

#[test]
fn whole_domain_bounds() {
    let b = Bounds::whole_domain();
    assert_eq!((b.x_min, b.x_max, b.y_min, b.y_max, b.z_min, b.z_max), (0, X_SIZE, 0, Y_SIZE, 0, 0));
}

#[test]
fn random_points_fall_inside_bounds_and_vary() {
    let mut rng = rand::thread_rng();
    let b = Bounds { x_min: -10, x_max: 10, y_min: 5, y_max: 50, z_min: -3, z_max: 3 };
    let mut seen_other_than_max = false;
    for _ in 0..200 {
        let p = rvec3_range(&mut rng, &b);
        assert!(-10 <= p.x && p.x <= 10 && 5 <= p.y && p.y <= 50 && -3 <= p.z && p.z <= 3);
        if p.x != 10 {
            seen_other_than_max = true;
        }
        let q = rvec2_range(&mut rng, &b);
        assert!(-10 <= q.x && q.x <= 10 && 5 <= q.y && q.y <= 50 && q.z == 0);
    }
    assert!(seen_other_than_max);
}

#[test]
fn random_boid_in_planar_domain() {
    let mut rng = rand::thread_rng();
    for _ in 0..100 {
        let b = random_boid(&mut rng, &Bounds::whole_domain());
        assert!(0 <= b.position.x && b.position.x <= X_SIZE);
        assert!(0 <= b.position.y && b.position.y <= Y_SIZE);
        assert_eq!(b.position.z, 0);
        assert_eq!(b.velocity.z, 0);
        assert!(b.velocity.x.abs() <= START_SPEED && b.velocity.y.abs() <= START_SPEED);
        assert_eq!(b.color, WHITE);
    }
}

#[test]
fn random_boid_in_solid_domain() {
    let mut rng = rand::thread_rng();
    let bounds = Bounds { x_min: 0, x_max: 50_000, y_min: 0, y_max: 50_000, z_min: 0, z_max: 50_000 };
    for _ in 0..100 {
        let b = random_boid(&mut rng, &bounds);
        assert!(0 <= b.position.z && b.position.z <= 50_000);
        assert!(b.velocity.z.abs() <= START_SPEED);
    }
}

#[test]
fn avoid_factor_above_one() {
    let mut p = Params::default();
    p.coherence = 0;
    p.avoid_factor = 2000;
    let a = boid(centre(), v(0, 0, 0));
    let b = boid(v(X_SIZE / 2, Y_SIZE / 2 + 200, 0), v(0, 0, 0));
    let next = update_boids(&p, &vec![a, b]);
    assert_eq!(next[0].velocity, v(0, -400, 0));
    assert_eq!(next[1].velocity, v(0, 400, 0));
}

#[test]
fn heavy_weights_still_respect_speed_limit() {
    let mut p = Params::default();
    p.coherence = 1_000_000;
    p.avoid_factor = 1_000_000;
    p.alignment = 1_000_000;
    let a = boid(centre(), v(900, 0, 0));
    let b = boid(v(X_SIZE / 2 + 100, Y_SIZE / 2 + 100, 0), v(-900, 300, 0));
    let c = boid(v(X_SIZE / 2 + 3000, Y_SIZE / 2 - 100, 0), v(0, -900, 0));
    let next = update_boids(&p, &vec![a, b, c]);
    for n in next.iter() {
        assert!(norm2(n.velocity) <= 1000 * 1000);
    }
}

#[test]
fn very_close_pair_still_moves_apart() {
    let mut p = Params::default();
    p.coherence = 0;
    let a = boid(centre(), v(0, 0, 0));
    let b = boid(v(X_SIZE / 2 + 10, Y_SIZE / 2, 0), v(0, 0, 0));
    let next = update_boids(&p, &vec![a, b]);
    assert_eq!(next[0].velocity, v(-1, 0, 0));
    assert_eq!(next[1].velocity, v(1, 0, 0));
    assert!(dist2(next[0].position, next[1].position) > dist2(a.position, b.position));
}

#[test]
fn very_close_pair_separates_at_default_weights() {
    let a = boid(centre(), v(0, 0, 0));
    let b = boid(v(X_SIZE / 2 + 7, Y_SIZE / 2 - 3, 0), v(0, 0, 0));
    let next = update_boids(&Params::default(), &vec![a, b]);
    assert!(dist2(next[0].position, next[1].position) > dist2(a.position, b.position));
}

#[test]
fn limit_never_stops_a_moving_agent() {
    assert_eq!(limit_speed(v(1, 1, 0), 1), v(1, 0, 0));
    assert_eq!(limit_speed(v(-2, 3, -3), 1), v(0, 1, 0));
    assert_eq!(limit_speed(v(0, 0, -5), 0), v(0, 0, 0));
}

#[test]
fn range_scale_handles_reversed_and_outside_values() {
    assert_eq!(range_scale(0, 10, 0, 0, 100), 100);
    assert_eq!(range_scale(10, 10, 0, 0, 100), 0);
    assert_eq!(range_scale(20, 0, 10, 0, 100), 200);
    assert_eq!(range_scale(-1, 0, 3, 0, 1), -1);
    assert_eq!(range_scale(2, 0, 4, 10, -10), 0);
}

#[test]
fn solid_defaults() {
    let p = Params::solid_default();
    assert_eq!(p.speed_limit, 10 * UNIT);
    assert_eq!(p.margin, v(500, 500, 500));
    assert_eq!(p.extent, v(SOLID_SIZE, SOLID_SIZE, SOLID_SIZE));
    let b = Bounds::whole_solid_domain();
    assert_eq!((b.x_max, b.y_max, b.z_max), (SOLID_SIZE, SOLID_SIZE, SOLID_SIZE));
}

#[test]
fn reset_gives_defaults_and_a_full_flock() {
    let mut rng = rand::thread_rng();
    let (p, pop) = reset(&mut rng);
    assert_eq!(p.speed_limit, Params::default().speed_limit);
    assert_eq!(pop.len(), NUM_BOIDS);
    for b in pop.iter() {
        assert!(0 <= b.position.x && b.position.x <= X_SIZE);
        assert!(0 <= b.position.y && b.position.y <= Y_SIZE);
        assert_eq!(b.color, WHITE);
    }
}

#[test]
fn solid_flock_ticks_within_speed_limit() {
    let p = Params::solid_default();
    let mut rng = rand::thread_rng();
    let mut pop: Vec<Boid> =
        (0..30).map(|_| random_boid(&mut rng, &Bounds::whole_solid_domain())).collect();
    for _ in 0..10 {
        pop = update_boids(&p, &pop);
        for b in pop.iter() {
            assert!(norm2(b.velocity) <= (p.speed_limit as i128) * (p.speed_limit as i128));
        }
    }
}
