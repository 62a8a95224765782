use vstd::arithmetic::div_mod::{
    lemma_div_multiples_vanish, lemma_fundamental_div_mod, lemma_mod_pos_bound,
};
use vstd::prelude::*;

verus! {

/// Largest magnitude of a stored coordinate or velocity component.
pub const COORD_LIMIT: i64 = 500_000_000;

/// Largest magnitude of a velocity component before the speed limit is applied.
pub const RAW_LIMIT: i64 = 2_000_000_000_000_000_000;

/// A point or a displacement in fixed-point units.
#[derive(Clone, Copy, Debug, PartialEq, Eq)]
pub struct Vec3 {
    pub x: i64,
    pub y: i64,
    pub z: i64,
}

/// Component `a` (0, 1 or 2) of `v`.
pub open spec fn comp(v: Vec3, a: int) -> int {
    if a == 0 {
        v.x as int
    } else if a == 1 {
        v.y as int
    } else {
        v.z as int
    }
}

/// Absolute value.
pub open spec fn abs(x: int) -> int {
    if x < 0 {
        -x
    } else {
        x
    }
}

/// Every component of `v` lies within `[-bound, bound]`.
pub open spec fn bounded(v: Vec3, bound: int) -> bool {
    abs(v.x as int) <= bound && abs(v.y as int) <= bound && abs(v.z as int) <= bound
}

/// Square.
pub open spec fn sq(x: int) -> int {
    x * x
}

/// Squared Euclidean magnitude.
pub open spec fn norm2(v: Vec3) -> int {
    sq(v.x as int) + sq(v.y as int) + sq(v.z as int)
}

/// Squared Euclidean distance between two points.
pub open spec fn dist2(p: Vec3, q: Vec3) -> int {
    sq(p.x - q.x) + sq(p.y - q.y) + sq(p.z - q.z)
}

/// Division rounding toward zero, for a positive divisor.
pub open spec fn tdiv(a: int, b: int) -> int {
    if a >= 0 {
        a / b
    } else {
        -((-a) / b)
    }
}

/// `s` is the square root of `n` rounded down.
pub open spec fn is_floor_sqrt(s: int, n: int) -> bool {
    0 <= s && s * s <= n && n < (s + 1) * (s + 1)
}

/// The integer square root of `n`, rounded down.
pub open spec fn floor_sqrt(n: int) -> int {
    choose|s: int| is_floor_sqrt(s, n)
}

/// The integer square root of `n`, rounded up.
pub open spec fn ceil_sqrt(n: int) -> int {
    let s = floor_sqrt(n);
    if s * s == n {
        s
    } else {
        s + 1
    }
}

/// Component `a` of the three values `c0`, `c1`, `c2`.
pub open spec fn pick(c0: int, c1: int, c2: int, a: int) -> int {
    if a == 0 {
        c0
    } else if a == 1 {
        c1
    } else {
        c2
    }
}

/// The sign of `x`: 1, 0 or -1.
pub open spec fn sign(x: int) -> int {
    if x > 0 {
        1
    } else if x < 0 {
        -1
    } else {
        0
    }
}

/// The axis of largest magnitude, the first one on a tie.
pub open spec fn largest_axis(c0: int, c1: int, c2: int) -> int {
    if abs(c0) >= abs(c1) && abs(c0) >= abs(c2) {
        0
    } else if abs(c1) >= abs(c2) {
        1
    } else {
        2
    }
}

/// Component `c` rescaled by `limit / |v|`, for a velocity `v` of squared magnitude `n`,
/// rounded toward zero.
pub open spec fn rescaled(c: int, n: int, limit: int) -> int {
    tdiv(c * limit, ceil_sqrt(n))
}

/// Component `a` of the velocity `(c0, c1, c2)` after limiting its speed to `limit`: unchanged
/// when the speed is within the limit, else rescaled by `limit / |v|`. Where that rounds every
/// component of a moving velocity to zero under a positive limit, the result is one unit along
/// the axis of largest magnitude, in its direction, so that a moving agent keeps moving.
pub open spec fn limited(c0: int, c1: int, c2: int, limit: int, a: int) -> int {
    let n = sq(c0) + sq(c1) + sq(c2);
    if n <= limit * limit {
        pick(c0, c1, c2, a)
    } else if limit > 0 && rescaled(c0, n, limit) == 0 && rescaled(c1, n, limit) == 0 && rescaled(
        c2,
        n,
        limit,
    ) == 0 {
        if a == largest_axis(c0, c1, c2) {
            sign(pick(c0, c1, c2, a))
        } else {
            0
        }
    } else {
        rescaled(pick(c0, c1, c2, a), n, limit)
    }
}

/// The rounded-down square root is unique.
pub proof fn lemma_floor_sqrt_unique(s: int, t: int, n: int)
    requires
        is_floor_sqrt(s, n),
        is_floor_sqrt(t, n),
    ensures
        s == t,
{
    if s < t {
        assert((s + 1) * (s + 1) <= t * t) by (nonlinear_arith)
            requires
                0 <= s,
                s + 1 <= t,
        ;
    } else if t < s {
        assert((t + 1) * (t + 1) <= s * s) by (nonlinear_arith)
            requires
                0 <= t,
                t + 1 <= s,
        ;
    }
}

/// A value that meets the definition is the rounded-down square root.
pub proof fn lemma_floor_sqrt_is(s: int, n: int)
    requires
        is_floor_sqrt(s, n),
    ensures
        floor_sqrt(n) == s,
{
    lemma_floor_sqrt_unique(floor_sqrt(n), s, n);
}

/// A truncated quotient is no larger in magnitude than the dividend scaled down.
pub proof fn lemma_tdiv_bound(a: int, b: int)
    requires
        b > 0,
    ensures
        abs(tdiv(a, b)) * b <= abs(a),
        abs(tdiv(a, b)) <= abs(a),
        a >= 0 ==> tdiv(a, b) >= 0,
        a <= 0 ==> tdiv(a, b) <= 0,
{
    let m = abs(a);
    lemma_fundamental_div_mod(m, b);
    lemma_mod_pos_bound(m, b);
    let q = m / b;
    assert(q >= 0) by (nonlinear_arith)
        requires
            m == b * q + m % b,
            0 <= m % b < b,
            m >= 0,
            b > 0,
    ;
    assert(q * b <= m) by (nonlinear_arith)
        requires
            m == b * q + m % b,
            0 <= m % b,
    ;
    assert(q <= m) by (nonlinear_arith)
        requires
            q * b <= m,
            q >= 0,
            b >= 1,
    ;
}

/// Division rounding toward zero, for a positive divisor.
pub fn tdiv_i128(a: i128, b: i128) -> (q: i128)
    requires
        b > 0,
        a > i128::MIN,
    ensures
        q == tdiv(a as int, b as int),
{
    if a >= 0 {
        a / b
    } else {
        -((-a) / b)
    }
}

/// Upper bound on the argument of `sqrt_floor`.
pub const SQRT_INPUT_LIMIT: i128 = 21267647932558653966460912964485513216;

/// The integer square root of `n`, rounded down, by bisection.
pub fn sqrt_floor(n: i128) -> (s: i128)
    requires
        0 <= n < SQRT_INPUT_LIMIT,
    ensures
        is_floor_sqrt(s as int, n as int),
        s == floor_sqrt(n as int),
{
    let mut lo: i128 = 0;
    let mut hi: i128 = 4611686018427387904;
    assert(hi * hi == SQRT_INPUT_LIMIT);
    while hi - lo > 1
        invariant
            0 <= lo < hi <= 4611686018427387904,
            lo * lo <= n,
            n < hi * hi,
        decreases hi - lo,
    {
        let mid: i128 = lo + (hi - lo) / 2;
        assert(0 <= mid * mid <= 4611686018427387904 * 4611686018427387904) by (nonlinear_arith)
            requires
                0 <= mid <= 4611686018427387904,
        ;
        if mid * mid <= n {
            lo = mid;
        } else {
            hi = mid;
        }
    }
    assert(hi == lo + 1);
    proof {
        lemma_floor_sqrt_is(lo as int, n as int);
    }
    lo
}

/// Scaling each component down by the same factor keeps the squared magnitude within `limit`.
proof fn lemma_rescaled_within(c0: int, c1: int, c2: int, limit: int, s: int)
    requires
        limit >= 0,
        s > 0,
        sq(c0) + sq(c1) + sq(c2) <= s * s,
    ensures
        sq(tdiv(c0 * limit, s)) + sq(tdiv(c1 * limit, s)) + sq(tdiv(c2 * limit, s)) <= limit
            * limit,
{
    let r0 = tdiv(c0 * limit, s);
    let r1 = tdiv(c1 * limit, s);
    let r2 = tdiv(c2 * limit, s);
    lemma_tdiv_bound(c0 * limit, s);
    lemma_tdiv_bound(c1 * limit, s);
    lemma_tdiv_bound(c2 * limit, s);
    lemma_scaled_square(r0, c0, limit, s);
    lemma_scaled_square(r1, c1, limit, s);
    lemma_scaled_square(r2, c2, limit, s);
    let n = sq(c0) + sq(c1) + sq(c2);
    let m = sq(r0) + sq(r1) + sq(r2);
    assert(m * (s * s) <= n * (limit * limit)) by (nonlinear_arith)
        requires
            sq(r0) * (s * s) <= sq(c0) * (limit * limit),
            sq(r1) * (s * s) <= sq(c1) * (limit * limit),
            sq(r2) * (s * s) <= sq(c2) * (limit * limit),
            m == sq(r0) + sq(r1) + sq(r2),
            n == sq(c0) + sq(c1) + sq(c2),
    ;
    assert(n * (limit * limit) <= (s * s) * (limit * limit)) by (nonlinear_arith)
        requires
            n <= s * s,
    ;
    assert(m <= limit * limit) by (nonlinear_arith)
        requires
            m * (s * s) <= (s * s) * (limit * limit),
            s > 0,
    ;
}

proof fn lemma_scaled_square(r: int, c: int, limit: int, s: int)
    requires
        limit >= 0,
        s > 0,
        abs(r) * s <= abs(c * limit),
    ensures
        sq(r) * (s * s) <= sq(c) * (limit * limit),
{
    assert(abs(c * limit) == abs(c) * limit) by (nonlinear_arith)
        requires
            limit >= 0,
    ;
    lemma_sq_abs(r);
    lemma_sq_abs(c);
    let x = abs(r) * s;
    let y = abs(c) * limit;
    assert(x * x <= y * y) by (nonlinear_arith)
        requires
            0 <= x <= y,
    ;
    assert(x * x == sq(r) * (s * s)) by (nonlinear_arith)
        requires
            x == abs(r) * s,
            sq(r) == abs(r) * abs(r),
    ;
    assert(y * y == sq(c) * (limit * limit)) by (nonlinear_arith)
        requires
            y == abs(c) * limit,
            sq(c) == abs(c) * abs(c),
    ;
}

/// Caps the magnitude of `v` at `limit`, keeping its direction; a velocity within the limit
/// (the zero velocity among them) is returned as it is.
pub fn limit_speed(v: Vec3, limit: i64) -> (r: Vec3)
    requires
        0 <= limit <= COORD_LIMIT,
        bounded(v, RAW_LIMIT as int),
    ensures
        forall|a: int|
            0 <= a < 3 ==> #[trigger] comp(r, a) == limited(
                v.x as int,
                v.y as int,
                v.z as int,
                limit as int,
                a,
            ),
        norm2(r) <= limit * limit,
        bounded(r, limit as int),
{
    let x = v.x as i128;
    let y = v.y as i128;
    let z = v.z as i128;
    assert(x * x <= RAW_LIMIT * RAW_LIMIT && y * y <= RAW_LIMIT * RAW_LIMIT && z * z <= RAW_LIMIT
        * RAW_LIMIT) by (nonlinear_arith)
        requires
            -RAW_LIMIT <= x <= RAW_LIMIT,
            -RAW_LIMIT <= y <= RAW_LIMIT,
            -RAW_LIMIT <= z <= RAW_LIMIT,
    ;
    assert(0 <= x * x && 0 <= y * y && 0 <= z * z) by (nonlinear_arith);
    let n: i128 = x * x + y * y + z * z;
    let l: i128 = limit as i128;
    assert(0 <= l * l <= COORD_LIMIT * COORD_LIMIT) by (nonlinear_arith)
        requires
            0 <= l <= COORD_LIMIT,
    ;
    assert(n == norm2(v));
    if n <= l * l {
        proof {
            lemma_within_limit(v, limit as int);
        }
        assert(comp(v, 0) == limited(v.x as int, v.y as int, v.z as int, limit as int, 0));
        assert(comp(v, 1) == limited(v.x as int, v.y as int, v.z as int, limit as int, 1));
        assert(comp(v, 2) == limited(v.x as int, v.y as int, v.z as int, limit as int, 2));
        return v;
    }
    let f = sqrt_floor(n);
    assert(f < 4611686018427387904) by (nonlinear_arith)
        requires
            is_floor_sqrt(f as int, n as int),
            n < 4611686018427387904 * 4611686018427387904,
    ;
    let s: i128 = if f * f == n {
        f
    } else {
        f + 1
    };
    assert(s == ceil_sqrt(n as int));
    assert(s > 0 && n <= s * s) by (nonlinear_arith)
        requires
            is_floor_sqrt(f as int, n as int),
            s == f || (s == f + 1 && f * f != n),
            s == f ==> f * f == n,
            n > 0,
    ;
    assert(s <= 4611686018427387904) by (nonlinear_arith)
        requires
            is_floor_sqrt(f as int, n as int),
            n < SQRT_INPUT_LIMIT,
            s <= f + 1,
    ;
    assert(abs(x * l) <= RAW_LIMIT * COORD_LIMIT && abs(y * l) <= RAW_LIMIT * COORD_LIMIT && abs(
        z * l,
    ) <= RAW_LIMIT * COORD_LIMIT) by (nonlinear_arith)
        requires
            -RAW_LIMIT <= x <= RAW_LIMIT,
            -RAW_LIMIT <= y <= RAW_LIMIT,
            -RAW_LIMIT <= z <= RAW_LIMIT,
            0 <= l <= COORD_LIMIT,
    ;
    let rx = tdiv_i128(x * l, s);
    let ry = tdiv_i128(y * l, s);
    let rz = tdiv_i128(z * l, s);
    proof {
        lemma_rescaled_within(x as int, y as int, z as int, l as int, s as int);
        lemma_squares_nonneg(rx as int, ry as int, rz as int);
        lemma_square_bound(rx as int, l as int);
        lemma_square_bound(ry as int, l as int);
        lemma_square_bound(rz as int, l as int);
    }
    let ghost lim = limit as int;
    if l > 0 && rx == 0 && ry == 0 && rz == 0 {
        let ax = if x < 0 {
            -x
        } else {
            x
        };
        let ay = if y < 0 {
            -y
        } else {
            y
        };
        let az = if z < 0 {
            -z
        } else {
            z
        };
        let r = if ax >= ay && ax >= az {
            Vec3 { x: if x > 0 { 1 } else if x < 0 { -1 } else { 0 }, y: 0, z: 0 }
        } else if ay >= az {
            Vec3 { x: 0, y: if y > 0 { 1 } else if y < 0 { -1 } else { 0 }, z: 0 }
        } else {
            Vec3 { x: 0, y: 0, z: if z > 0 { 1 } else if z < 0 { -1 } else { 0 } }
        };
        assert(comp(r, 0) == limited(v.x as int, v.y as int, v.z as int, lim, 0));
        assert(comp(r, 1) == limited(v.x as int, v.y as int, v.z as int, lim, 1));
        assert(comp(r, 2) == limited(v.x as int, v.y as int, v.z as int, lim, 2));
        let ghost (px, py, pz) = (r.x as int, r.y as int, r.z as int);
        assert(px * px + py * py + pz * pz <= 1) by (nonlinear_arith)
            requires
                -1 <= px <= 1,
                -1 <= py <= 1,
                -1 <= pz <= 1,
                (py == 0 && pz == 0) || (px == 0 && pz == 0) || (px == 0 && py == 0),
        ;
        assert(1 <= lim * lim) by (nonlinear_arith)
            requires
                lim >= 1,
        ;
        return r;
    }
    let r = Vec3 { x: rx as i64, y: ry as i64, z: rz as i64 };
    assert(comp(r, 0) == limited(v.x as int, v.y as int, v.z as int, lim, 0));
    assert(comp(r, 1) == limited(v.x as int, v.y as int, v.z as int, lim, 1));
    assert(comp(r, 2) == limited(v.x as int, v.y as int, v.z as int, lim, 2));
    r
}

proof fn lemma_sq_abs(x: int)
    ensures
        sq(x) == abs(x) * abs(x),
        sq(x) >= 0,
{
    if x < 0 {
        assert((-x) * (-x) == x * x) by (nonlinear_arith);
    }
    assert(abs(x) * abs(x) >= 0) by (nonlinear_arith)
        requires
            abs(x) >= 0,
    ;
}

pub proof fn lemma_squares_nonneg(a: int, b: int, c: int)
    ensures
        sq(a) >= 0,
        sq(b) >= 0,
        sq(c) >= 0,
{
    assert(sq(a) >= 0 && sq(b) >= 0 && sq(c) >= 0) by (nonlinear_arith);
}

proof fn lemma_within_limit(v: Vec3, limit: int)
    requires
        limit >= 0,
        norm2(v) <= limit * limit,
    ensures
        bounded(v, limit),
{
    lemma_squares_nonneg(v.x as int, v.y as int, v.z as int);
    lemma_square_bound(v.x as int, limit);
    lemma_square_bound(v.y as int, limit);
    lemma_square_bound(v.z as int, limit);
}

/// A component whose square is at most `limit * limit` is at most `limit` in magnitude.
pub proof fn lemma_square_bound(c: int, limit: int)
    requires
        limit >= 0,
        sq(c) <= limit * limit,
    ensures
        abs(c) <= limit,
{
    lemma_sq_abs(c);
    if abs(c) > limit {
        assert(sq(c) > limit * limit) by (nonlinear_arith)
            requires
                abs(c) > limit,
                limit >= 0,
                sq(c) == abs(c) * abs(c),
        ;
    }
}

/// The ceiling square root of a positive `n` is positive and its square covers `n`.
proof fn lemma_ceil_sqrt(n: int)
    requires
        n > 0,
    ensures
        ceil_sqrt(n) > 0,
        n <= ceil_sqrt(n) * ceil_sqrt(n),
{
    let f = floor_sqrt(n);
    lemma_floor_sqrt_exists(n);
    let s = ceil_sqrt(n);
    assert(s > 0 && n <= s * s) by (nonlinear_arith)
        requires
            is_floor_sqrt(f, n),
            s == (if f * f == n {
                f
            } else {
                f + 1
            }),
            n > 0,
    ;
}

/// Limiting a velocity of any size leaves a squared magnitude of at most `limit * limit`.
pub proof fn lemma_limited_within(c0: int, c1: int, c2: int, limit: int)
    requires
        limit >= 0,
    ensures
        sq(limited(c0, c1, c2, limit, 0)) + sq(limited(c0, c1, c2, limit, 1)) + sq(
            limited(c0, c1, c2, limit, 2),
        ) <= limit * limit,
{
    let n = sq(c0) + sq(c1) + sq(c2);
    lemma_squares_nonneg(c0, c1, c2);
    if n > limit * limit {
        lemma_ceil_sqrt(n);
        lemma_rescaled_within(c0, c1, c2, limit, ceil_sqrt(n));
        if limit > 0 && rescaled(c0, n, limit) == 0 && rescaled(c1, n, limit) == 0 && rescaled(
            c2,
            n,
            limit,
        ) == 0 {
            assert(1 <= limit * limit) by (nonlinear_arith)
                requires
                    limit >= 1,
            ;
        }
    }
}

/// Limiting keeps the sign of each component, and a component at zero stays at zero.
pub proof fn lemma_limited_sign(c0: int, c1: int, c2: int, limit: int, a: int)
    requires
        limit >= 0,
        0 <= a < 3,
    ensures
        pick(c0, c1, c2, a) == 0 ==> limited(c0, c1, c2, limit, a) == 0,
        pick(c0, c1, c2, a) > 0 ==> limited(c0, c1, c2, limit, a) >= 0,
        pick(c0, c1, c2, a) < 0 ==> limited(c0, c1, c2, limit, a) <= 0,
{
    let n = sq(c0) + sq(c1) + sq(c2);
    lemma_squares_nonneg(c0, c1, c2);
    if n > limit * limit {
        lemma_ceil_sqrt(n);
        let c = pick(c0, c1, c2, a);
        let s = ceil_sqrt(n);
        assert(c >= 0 ==> c * limit >= 0) by (nonlinear_arith)
            requires
                limit >= 0,
        ;
        assert(c <= 0 ==> c * limit <= 0) by (nonlinear_arith)
            requires
                limit >= 0,
        ;
        assert(c == 0 ==> c * limit == 0);
        lemma_tdiv_bound(c * limit, s);
    }
}

/// Under a positive limit, a moving velocity stays moving.
pub proof fn lemma_limited_moving(c0: int, c1: int, c2: int, limit: int)
    requires
        limit >= 1,
        c0 != 0 || c1 != 0 || c2 != 0,
    ensures
        limited(c0, c1, c2, limit, 0) != 0 || limited(c0, c1, c2, limit, 1) != 0 || limited(
            c0,
            c1,
            c2,
            limit,
            2,
        ) != 0,
{
}

/// Every non-negative integer has an integer square root.
proof fn lemma_floor_sqrt_exists(n: int)
    requires
        n >= 0,
    ensures
        is_floor_sqrt(floor_sqrt(n), n),
{
    let s = floor_sqrt_search(n, 0);
    assert(is_floor_sqrt(s, n));
}

proof fn floor_sqrt_search(n: int, s: int) -> (r: int)
    requires
        0 <= s,
        s * s <= n,
    ensures
        is_floor_sqrt(r, n),
    decreases n - s,
{
    if n < (s + 1) * (s + 1) {
        s
    } else {
        assert(s + 1 <= n) by (nonlinear_arith)
            requires
                (s + 1) * (s + 1) <= n,
                s >= 0,
        ;
        floor_sqrt_search(n, s + 1)
    }
}

/// A velocity twice as long as one of speed exactly `limit` is halved by the limiter: the
/// result has speed `limit` and the same direction.
pub proof fn lemma_double_speed_halved(w0: int, w1: int, w2: int, limit: int, a: int)
    requires
        limit >= 1,
        sq(w0) + sq(w1) + sq(w2) == limit * limit,
        0 <= a < 3,
    ensures
        limited(2 * w0, 2 * w1, 2 * w2, limit, a) == pick(w0, w1, w2, a),
{
    let n = sq(2 * w0) + sq(2 * w1) + sq(2 * w2);
    assert(n == 4 * (limit * limit)) by (nonlinear_arith)
        requires
            sq(w0) + sq(w1) + sq(w2) == limit * limit,
            n == sq(2 * w0) + sq(2 * w1) + sq(2 * w2),
    ;
    let s = 2 * limit;
    assert(is_floor_sqrt(s, n)) by (nonlinear_arith)
        requires
            n == 4 * (limit * limit),
            s == 2 * limit,
            limit >= 1,
    ;
    lemma_floor_sqrt_is(s, n);
    assert(s * s == n) by (nonlinear_arith)
        requires
            n == 4 * (limit * limit),
            s == 2 * limit,
    ;
    assert(ceil_sqrt(n) == s);
    assert(n > limit * limit) by (nonlinear_arith)
        requires
            n == 4 * (limit * limit),
            limit >= 1,
    ;
    assert forall|c: int| #[trigger] rescaled(2 * c, n, limit) == c by {
        if c >= 0 {
            assert(2 * c * limit == s * c) by (nonlinear_arith)
                requires
                    s == 2 * limit,
            ;
            lemma_div_multiples_vanish(c, s);
        } else {
            assert(-(2 * c * limit) == s * (-c)) by (nonlinear_arith)
                requires
                    s == 2 * limit,
            ;
            assert(2 * c * limit < 0) by (nonlinear_arith)
                requires
                    c < 0,
                    limit >= 1,
            ;
            lemma_div_multiples_vanish(-c, s);
        }
    }
    assert(rescaled(2 * w0, n, limit) == w0);
    assert(rescaled(2 * w1, n, limit) == w1);
    assert(rescaled(2 * w2, n, limit) == w2);
    if w0 == 0 && w1 == 0 && w2 == 0 {
        assert(limit * limit >= 1) by (nonlinear_arith)
            requires
                limit >= 1,
        ;
    }
}

} // verus!
