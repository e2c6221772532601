//! Fixed-point plane and space geometry for the simulation.
//!
//! Every coordinate is an `i64` counting milli-units (one thousandth of a
//! world unit); durations are milliseconds. Directions are vectors whose
//! length is close to [`SCALE`]. All operations are exact integer arithmetic,
//! with division rounding toward zero and square roots rounding down.

use vstd::prelude::*;

verus! {

/// Number of milli-units in one world unit, and the length of a unit
/// direction vector.
pub const SCALE: i64 = 1000;

/// Greatest magnitude a stored world coordinate may have (2^29).
pub const COORD_MAX: i64 = 536870912;

/// Greatest magnitude a direction component may have (a normalized
/// direction has components of magnitude at most `SCALE`).
pub const DIR_MAX: i64 = 2000;

/// A planar vector or point, in milli-units.
#[derive(Clone, Copy, PartialEq, Eq, Structural, Debug)]
pub struct Vec2 {
    pub x: i64,
    pub y: i64,
}

/// A spatial vector or point, in milli-units.
#[derive(Clone, Copy, PartialEq, Eq, Structural, Debug)]
pub struct Vec3 {
    pub x: i64,
    pub y: i64,
    pub z: i64,
}

/// A kinematic snapshot: position, planar facing angle in milli-degrees,
/// and velocity in milli-units per second.
#[derive(Clone, Copy, PartialEq, Eq, Structural, Debug)]
pub struct Pos {
    pub pos: Vec3,
    pub rot: i64,
    pub vel: Vec3,
}

/// Magnitude of an integer.
pub open spec fn abs_i(a: int) -> int {
    if a >= 0 {
        a
    } else {
        -a
    }
}

/// A coordinate within the world's bounds.
pub open spec fn coord_ok(a: int) -> bool {
    abs_i(a) <= COORD_MAX
}

pub open spec fn v2_ok(v: Vec2) -> bool {
    coord_ok(v.x as int) && coord_ok(v.y as int)
}

pub open spec fn v3_ok(v: Vec3) -> bool {
    coord_ok(v.x as int) && coord_ok(v.y as int) && coord_ok(v.z as int)
}

/// A direction with components of bounded magnitude.
pub open spec fn dir_ok(v: Vec2) -> bool {
    abs_i(v.x as int) <= DIR_MAX && abs_i(v.y as int) <= DIR_MAX
}

/// A valid kinematic snapshot: position and velocity within the world's
/// bounds, angle within one turn either way.
pub open spec fn pos_ok(p: Pos) -> bool {
    v3_ok(p.pos) && v3_ok(p.vel) && abs_i(p.rot as int) <= 360000
}

/// Division with the magnitude rounded down and the sign reattached
/// (rounding toward zero, as the simulation rounds everywhere).
pub open spec fn sdiv(a: int, d: int) -> int {
    if a >= 0 {
        a / d
    } else {
        -((-a) / d)
    }
}

/// Squared length of a planar vector.
pub open spec fn norm2(dx: int, dy: int) -> int {
    dx * dx + dy * dy
}

/// Squared length of a spatial vector.
pub open spec fn norm2_3(dx: int, dy: int, dz: int) -> int {
    dx * dx + dy * dy + dz * dz
}

/// `r` is the floor of the square root of `n`.
pub open spec fn is_sqrt_floor(r: nat, n: nat) -> bool {
    r * r <= n < (r + 1) * (r + 1)
}

/// Floor of the square root of a natural number.
pub open spec fn sqrt_floor(n: nat) -> nat {
    choose|r: nat| is_sqrt_floor(r, n)
}

/// The square root floor exists; this pins `sqrt_floor` down.
pub proof fn lemma_sqrt_floor(n: nat)
    ensures
        sqrt_floor(n) * sqrt_floor(n) <= n,
        n < (sqrt_floor(n) + 1) * (sqrt_floor(n) + 1),
    decreases n,
{
    if n == 0 {
        assert(is_sqrt_floor(0, 0)) by (nonlinear_arith);
    } else {
        lemma_sqrt_floor((n - 1) as nat);
        let p = sqrt_floor((n - 1) as nat);
        if n < (p + 1) * (p + 1) {
            assert(is_sqrt_floor(p, n));
        } else {
            assert((p + 1) * (p + 1) <= n);
            assert(n <= (p + 1) * (p + 1)) by {
                assert(n - 1 < (p + 1) * (p + 1));
            }
            assert(is_sqrt_floor((p + 1) as nat, n)) by (nonlinear_arith)
                requires
                    (p + 1) * (p + 1) <= n,
                    n <= (p + 1) * (p + 1),
            ;
        }
    }
    assert(is_sqrt_floor(sqrt_floor(n), n)) by {
        assert(exists|r: nat| is_sqrt_floor(r, n));
    }
}

/// Uniqueness: any `r` with `r*r <= n < (r+1)*(r+1)` equals `sqrt_floor(n)`.
pub proof fn lemma_sqrt_floor_unique(n: nat, r: nat)
    requires
        r * r <= n,
        n < (r + 1) * (r + 1),
    ensures
        r == sqrt_floor(n),
{
    lemma_sqrt_floor(n);
    let s = sqrt_floor(n);
    if r < s {
        assert((r + 1) * (r + 1) <= s * s) by (nonlinear_arith)
            requires
                r + 1 <= s,
        ;
    }
    if s < r {
        assert((s + 1) * (s + 1) <= r * r) by (nonlinear_arith)
            requires
                s + 1 <= r,
        ;
    }
}

/// Monotonicity: `k*k <= n` exactly when `k <= sqrt_floor(n)`.
pub proof fn lemma_sqrt_floor_le(k: nat, n: nat)
    ensures
        k * k <= n <==> k <= sqrt_floor(n),
{
    lemma_sqrt_floor(n);
    let s = sqrt_floor(n);
    if k * k <= n && s < k {
        assert((s + 1) * (s + 1) <= k * k) by (nonlinear_arith)
            requires
                s + 1 <= k,
        ;
    }
    if k <= s && n < k * k {
        assert(k * k <= s * s) by (nonlinear_arith)
            requires
                k <= s,
        ;
    }
}

/// Integer square root, rounded down.
pub fn isqrt(n: u64) -> (r: u64)
    ensures
        r == sqrt_floor(n as nat),
        r * r <= n,
        r <= 4294967295,
{
    let mut lo: u64 = 0;
    let mut hi: u64 = 4294967296;
    // Binary search for the greatest r with r * r <= n.
    while lo + 1 < hi
        invariant
            lo < hi <= 4294967296,
            lo * lo <= n as nat,
            n < hi * hi,
        decreases hi - lo,
    {
        let mid: u64 = lo + (hi - lo) / 2;
        proof {
            assert(mid * mid < 4294967296 * 4294967296) by (nonlinear_arith)
                requires
                    mid < 4294967296,
            ;
        }
        if mid * mid <= n {
            lo = mid;
        } else {
            hi = mid;
        }
    }
    proof {
        assert(n < (lo + 1) * (lo + 1)) by {
            assert(hi == lo + 1);
        }
        lemma_sqrt_floor_unique(n as nat, lo as nat);
    }
    lo
}

/// Magnitude of an `i64`, as a `u64`.
pub fn abs64(a: i64) -> (r: u64)
    requires
        a != i64::MIN,
    ensures
        r == abs_i(a as int),
{
    if a >= 0 {
        a as u64
    } else {
        (-a) as u64
    }
}

/// Division rounding toward zero: magnitudes are divided rounding down and
/// the sign of the dividend is reattached.
pub fn div_toward_zero(a: i64, d: i64) -> (r: i64)
    requires
        d > 0,
        a != i64::MIN,
    ensures
        r == sdiv(a as int, d as int),
        abs_i(r as int) <= abs_i(a as int),
{
    let m: u64 = abs64(a) / (d as u64);
    proof {
        assert(abs_i(a as int) / (d as int) <= abs_i(a as int)) by (nonlinear_arith)
            requires
                d >= 1,
                abs_i(a as int) >= 0,
        ;
    }
    if a >= 0 {
        m as i64
    } else {
        -(m as i64)
    }
}

/// Dividing a magnitude bounded by `k * d` gives a magnitude bounded by `k`.
pub proof fn lemma_sdiv_bound(a: int, d: int, k: int)
    requires
        d > 0,
        k >= 0,
        abs_i(a) <= k * d,
    ensures
        abs_i(sdiv(a, d)) <= k,
{
    assert(abs_i(a) / d <= k) by (nonlinear_arith)
        requires
            d > 0,
            k >= 0,
            abs_i(a) <= k * d,
    ;
}

/// Rounding toward zero keeps the dividend's sign.
pub proof fn lemma_sdiv_sign(a: int, d: int)
    requires
        d > 0,
    ensures
        a >= 0 ==> sdiv(a, d) >= 0,
        a <= 0 ==> sdiv(a, d) <= 0,
{
    if a >= 0 {
        assert(a / d >= 0) by (nonlinear_arith)
            requires
                a >= 0,
                d > 0,
        ;
    } else {
        assert((-a) / d >= 0) by (nonlinear_arith)
            requires
                -a >= 0,
                d > 0,
        ;
    }
}

/// Scaling the rounded quotient back up never exceeds the dividend.
pub proof fn lemma_sdiv_mul_le(a: int, d: int)
    requires
        d > 0,
    ensures
        abs_i(sdiv(a, d)) * d <= abs_i(a),
        abs_i(sdiv(a, d)) == abs_i(a) / d,
{
    assert(abs_i(a) / d >= 0 && (abs_i(a) / d) * d <= abs_i(a)) by (nonlinear_arith)
        requires
            d > 0,
            abs_i(a) >= 0,
    ;
}

/// Squared planar distance between two points.
pub fn dist2_v2(a: Vec2, b: Vec2) -> (r: u64)
    requires
        v2_ok(a),
        v2_ok(b),
    ensures
        r == norm2(a.x - b.x, a.y - b.y),
{
    let dx: i64 = a.x - b.x;
    let dy: i64 = a.y - b.y;
    proof {
        assert(0 <= dx * dx <= (2 * COORD_MAX) * (2 * COORD_MAX) && 0 <= dy * dy <= (2
            * COORD_MAX) * (2 * COORD_MAX)) by (nonlinear_arith)
            requires
                abs_i(dx as int) <= 2 * COORD_MAX,
                abs_i(dy as int) <= 2 * COORD_MAX,
        ;
    }
    (dx * dx + dy * dy) as u64
}

/// Squared spatial distance between two points.
pub fn dist2_v3(a: Vec3, b: Vec3) -> (r: u64)
    requires
        v3_ok(a),
        v3_ok(b),
    ensures
        r == norm2_3(a.x - b.x, a.y - b.y, a.z - b.z),
{
    let dx: i64 = a.x - b.x;
    let dy: i64 = a.y - b.y;
    let dz: i64 = a.z - b.z;
    proof {
        assert(0 <= dx * dx <= (2 * COORD_MAX) * (2 * COORD_MAX) && 0 <= dy * dy <= (2
            * COORD_MAX) * (2 * COORD_MAX) && 0 <= dz * dz <= (2 * COORD_MAX) * (2
            * COORD_MAX)) by (nonlinear_arith)
            requires
                abs_i(dx as int) <= 2 * COORD_MAX,
                abs_i(dy as int) <= 2 * COORD_MAX,
                abs_i(dz as int) <= 2 * COORD_MAX,
        ;
    }
    (dx * dx + dy * dy + dz * dz) as u64
}

/// The planar direction `(dx, dy)` scaled to length `SCALE` (each
/// component's magnitude rounded down), as an `(x, y)` pair; the zero
/// vector stays zero.
pub open spec fn normalize_spec(dx: int, dy: int) -> (int, int) {
    if dx == 0 && dy == 0 {
        (0int, 0int)
    } else {
        let l = sqrt_floor(norm2(dx, dy) as nat) as int;
        (sdiv(dx * SCALE, l), sdiv(dy * SCALE, l))
    }
}

/// A component is never longer than the whole vector.
proof fn lemma_component_le_norm(dx: int, dy: int)
    ensures
        abs_i(dx) <= sqrt_floor(norm2(dx, dy) as nat),
        abs_i(dy) <= sqrt_floor(norm2(dx, dy) as nat),
{
    assert(dx * dx + dy * dy >= 0 && abs_i(dx) * abs_i(dx) <= dx * dx + dy * dy && abs_i(dy)
        * abs_i(dy) <= dx * dx + dy * dy) by (nonlinear_arith);
    lemma_sqrt_floor_le(abs_i(dx) as nat, norm2(dx, dy) as nat);
    lemma_sqrt_floor_le(abs_i(dy) as nat, norm2(dx, dy) as nat);
}

/// Normalize the planar vector `(dx, dy)` to length `SCALE`, rounding each
/// component's magnitude down; the zero vector stays zero.
pub fn normalize_milli(dx: i64, dy: i64) -> (r: Vec2)
    requires
        abs_i(dx as int) <= 2 * COORD_MAX,
        abs_i(dy as int) <= 2 * COORD_MAX,
    ensures
        (r.x as int, r.y as int) == normalize_spec(dx as int, dy as int),
        abs_i(r.x as int) <= SCALE,
        abs_i(r.y as int) <= SCALE,
{
    if dx == 0 && dy == 0 {
        return Vec2 { x: 0, y: 0 };
    }
    proof {
        assert(0 <= dx * dx <= 1152921504606846976 && 0 <= dy * dy <= 1152921504606846976
            && dx * dx + dy * dy >= 1) by (nonlinear_arith)
            requires
                abs_i(dx as int) <= 1073741824,
                abs_i(dy as int) <= 1073741824,
                !(dx == 0 && dy == 0),
        ;
    }
    let n2: u64 = (dx * dx + dy * dy) as u64;
    let l: u64 = isqrt(n2);
    proof {
        lemma_sqrt_floor_le(1, n2 as nat);
        lemma_component_le_norm(dx as int, dy as int);
        assert(abs_i(dx as int * SCALE) <= SCALE * (l as int) && abs_i(
            dy as int * SCALE,
        ) <= SCALE * (l as int)) by (nonlinear_arith)
            requires
                abs_i(dx as int) <= l as int,
                abs_i(dy as int) <= l as int,
                SCALE > 0,
        ;
        lemma_sdiv_bound(dx as int * SCALE, l as int, SCALE as int);
        lemma_sdiv_bound(dy as int * SCALE, l as int, SCALE as int);
    }
    let rx: i64 = div_toward_zero(dx * SCALE, l as i64);
    let ry: i64 = div_toward_zero(dy * SCALE, l as i64);
    Vec2 { x: rx, y: ry }
}

/// Where a ray first meets a circle, if anywhere.
///
/// `dir` is a direction of length (close to) `SCALE`; the result is the
/// distance in milli-units along the ray. An origin already inside the
/// circle meets it at distance zero. A zero direction meets nothing from
/// outside. Otherwise, with `q` the perpendicular distance from the center
/// to the ray's line: no hit when `q >= radius`; else the hit is at
/// `proj - sqrt(radius^2 - q^2)` where `proj` is the projection of the
/// center onto the ray, and only a hit strictly ahead (`t > 0`) counts.
pub open spec fn intersect_spec(from: Vec2, dir: Vec2, center: Vec2, radius: int) -> Option<
    int,
> {
    let cx = center.x - from.x;
    let cy = center.y - from.y;
    if norm2(cx, cy) < radius * radius {
        Some(0int)
    } else if dir.x == 0 && dir.y == 0 {
        None
    } else {
        let q = abs_i(cx * dir.y - cy * dir.x) / (SCALE as int);
        if q >= radius {
            None
        } else {
            let x = sqrt_floor((radius * radius - q * q) as nat) as int;
            let t = sdiv((cx * dir.x + cy * dir.y) * SCALE, norm2(dir.x as int, dir.y as int)) - x;
            if t > 0 {
                Some(t)
            } else {
                None
            }
        }
    }
}

/// Ray–circle intersection; see [`intersect_spec`].
pub fn intersect(from: Vec2, dir: Vec2, center: Vec2, radius: i64) -> (r: Option<i64>)
    requires
        v2_ok(from),
        v2_ok(center),
        dir_ok(dir),
        0 < radius <= 1000000,
    ensures
        r matches Some(t) ==> intersect_spec(from, dir, center, radius as int) == Some(
            t as int,
        ),
        r is None ==> intersect_spec(from, dir, center, radius as int) is None,
        r matches Some(t) ==> 0 <= t <= 8000000 * COORD_MAX,
{
    let cx: i64 = center.x - from.x;
    let cy: i64 = center.y - from.y;
    let d2: u64 = dist2_v2(center, from);
    proof {
        assert(radius * radius <= 1000000 * 1000000) by (nonlinear_arith)
            requires
                0 < radius <= 1000000,
        ;
    }
    if d2 < (radius * radius) as u64 {
        return Some(0);
    }
    if dir.x == 0 && dir.y == 0 {
        return None;
    }
    proof {
        assert(abs_i(cx as int * dir.y) <= (2 * COORD_MAX) * DIR_MAX && abs_i(
            cy as int * dir.x,
        ) <= (2 * COORD_MAX) * DIR_MAX && abs_i(cx as int * dir.x) <= (2 * COORD_MAX) * DIR_MAX
            && abs_i(cy as int * dir.y) <= (2 * COORD_MAX) * DIR_MAX) by (nonlinear_arith)
            requires
                abs_i(cx as int) <= 2 * COORD_MAX,
                abs_i(cy as int) <= 2 * COORD_MAX,
                abs_i(dir.x as int) <= DIR_MAX,
                abs_i(dir.y as int) <= DIR_MAX,
        ;
    }
    let cross: i64 = cx * dir.y - cy * dir.x;
    let q: i64 = (abs64(cross) / (SCALE as u64)) as i64;
    proof {
        assert(abs_i(cross as int) / (SCALE as int) <= abs_i(cross as int)) by (nonlinear_arith)
            requires
                SCALE > 0,
                abs_i(cross as int) >= 0,
        ;
    }
    if q >= radius {
        return None;
    }
    proof {
        assert(q * q < radius * radius) by (nonlinear_arith)
            requires
                0 <= q < radius,
        ;
    }
    let x: u64 = isqrt((radius * radius - q * q) as u64);
    proof {
        lemma_sqrt_floor_le(1000000, (radius * radius - q * q) as nat);
        assert(1000000 * 1000000 >= radius * radius - q * q) by (nonlinear_arith)
            requires
                0 < radius <= 1000000,
                q * q >= 0,
        ;
    }
    proof {
        assert(0 <= dir.x * dir.x <= DIR_MAX * DIR_MAX && 0 <= dir.y * dir.y <= DIR_MAX
            * DIR_MAX && dir.x * dir.x + dir.y * dir.y >= 1) by (nonlinear_arith)
            requires
                abs_i(dir.x as int) <= DIR_MAX,
                abs_i(dir.y as int) <= DIR_MAX,
                !(dir.x == 0 && dir.y == 0),
        ;
    }
    let dd: i64 = dir.x * dir.x + dir.y * dir.y;
    proof {
        assert(abs_i((cx as int * dir.x + cy as int * dir.y) * SCALE) <= (8000000 * COORD_MAX)
            * (dd as int)) by (nonlinear_arith)
            requires
                abs_i(cx as int * dir.x) <= (2 * COORD_MAX) * DIR_MAX,
                abs_i(cy as int * dir.y) <= (2 * COORD_MAX) * DIR_MAX,
                dd >= 1,
                SCALE == 1000,
                DIR_MAX == 2000,
                COORD_MAX == 536870912,
        ;
        lemma_sdiv_bound(
            (cx as int * dir.x + cy as int * dir.y) * SCALE,
            dd as int,
            8000000 * COORD_MAX,
        );
    }
    let proj: i64 = div_toward_zero((cx * dir.x + cy * dir.y) * SCALE, dd);
    let t: i64 = proj - (x as i64);
    if t > 0 {
        Some(t)
    } else {
        None
    }
}

/// A coordinate clamped to the world's bounds.
pub open spec fn clamp_c(a: int) -> int {
    if a > COORD_MAX {
        COORD_MAX as int
    } else if a < -COORD_MAX {
        -COORD_MAX as int
    } else {
        a
    }
}

/// Clamp a coordinate to the world's bounds.
pub fn clamp_coord(a: i64) -> (r: i64)
    ensures
        r == clamp_c(a as int),
        coord_ok(r as int),
{
    if a > COORD_MAX {
        COORD_MAX
    } else if a < -COORD_MAX {
        -COORD_MAX
    } else {
        a
    }
}


/// One integration step of a coordinate: add `b * dt / SCALE` (rounded
/// toward zero) and clamp to the world's bounds.
pub open spec fn step_c(a: int, b: int, dt: int) -> int {
    clamp_c(a + sdiv(b * dt, SCALE as int))
}

/// Advance coordinate `a` by rate `b` (milli-units per second) over `dt`
/// milliseconds; see [`step_c`].
pub fn step_coord(a: i64, b: i64, dt: i64) -> (r: i64)
    requires
        abs_i(a as int) <= 2 * COORD_MAX,
        abs_i(b as int) <= 2 * COORD_MAX,
        0 <= dt <= 100000,
    ensures
        r == step_c(a as int, b as int, dt as int),
        coord_ok(r as int),
{
    proof {
        assert(abs_i(b as int * dt) <= 107374182400000) by (nonlinear_arith)
            requires
                abs_i(b as int) <= 1073741824,
                0 <= dt <= 100000,
        ;
        lemma_sdiv_bound(b as int * dt, SCALE as int, 107374182400);
    }
    let m: i64 = div_toward_zero(b * dt, SCALE);
    clamp_coord(a + m)
}

/// The point reached from `p` moving straight toward `t` by at most
/// `ms` milli-units: `t` itself when it is at most `ms` away, else a step
/// of (at most) `ms` along the straight line, each component rounded
/// toward zero.
pub open spec fn move_toward_spec(p: Vec3, t: Vec3, ms: int) -> (int, int, int) {
    let dx = t.x - p.x;
    let dy = t.y - p.y;
    let dz = t.z - p.z;
    let n2 = norm2_3(dx, dy, dz);
    if n2 <= ms * ms {
        (t.x as int, t.y as int, t.z as int)
    } else {
        let l = sqrt_floor(n2 as nat) as int + 1;
        (p.x + sdiv(dx * ms, l), p.y + sdiv(dy * ms, l), p.z + sdiv(dz * ms, l))
    }
}

/// Move `p` toward `t` by at most `ms` milli-units; the step never
/// overshoots (its length is at most `ms`), and the target is reached
/// exactly when it is at most `ms` away.
pub fn move_toward(p: Vec3, t: Vec3, ms: i64) -> (r: Vec3)
    requires
        v3_ok(p),
        v3_ok(t),
        0 <= ms <= 1000000000,
    ensures
        (r.x as int, r.y as int, r.z as int) == move_toward_spec(p, t, ms as int),
        v3_ok(r),
        norm2_3(r.x - p.x, r.y - p.y, r.z - p.z) <= ms * ms,
        r == t <==> norm2_3(t.x - p.x, t.y - p.y, t.z - p.z) <= ms * ms,
{
    let dx: i64 = t.x - p.x;
    let dy: i64 = t.y - p.y;
    let dz: i64 = t.z - p.z;
    let n2: u64 = dist2_v3(t, p);
    proof {
        assert(0 <= ms * ms <= 1000000000000000000) by (nonlinear_arith)
            requires
                0 <= ms <= 1000000000,
        ;
    }
    if n2 <= (ms * ms) as u64 {
        return t;
    }
    let l: u64 = isqrt(n2);
    let lc: i64 = (l + 1) as i64;
    proof {
        lemma_sqrt_floor(n2 as nat);
        lemma_sqrt_floor_le(ms as nat, n2 as nat);
        assert(ms * ms <= n2);
        lemma_component_le_norm3(dx as int, dy as int, dz as int);
        assert(abs_i(dx as int * ms) <= abs_i(dx as int) * ms && abs_i(dy as int * ms) <= abs_i(
            dy as int,
        ) * ms && abs_i(dz as int * ms) <= abs_i(dz as int) * ms) by (nonlinear_arith)
            requires
                ms >= 0,
        ;
        assert(abs_i(dx as int) * ms <= abs_i(dx as int) * (lc as int) && abs_i(dy as int) * ms
            <= abs_i(dy as int) * (lc as int) && abs_i(dz as int) * ms <= abs_i(dz as int) * (
        lc as int)) by (nonlinear_arith)
            requires
                0 <= ms <= lc as int,
                abs_i(dx as int) >= 0,
                abs_i(dy as int) >= 0,
                abs_i(dz as int) >= 0,
        ;
        lemma_sdiv_bound(dx as int * ms, lc as int, abs_i(dx as int));
        lemma_sdiv_bound(dy as int * ms, lc as int, abs_i(dy as int));
        lemma_sdiv_bound(dz as int * ms, lc as int, abs_i(dz as int));
        assert(abs_i(dx as int * ms) <= 1073741824000000000 && abs_i(dy as int * ms)
            <= 1073741824000000000 && abs_i(dz as int * ms) <= 1073741824000000000)
            by (nonlinear_arith)
            requires
                abs_i(dx as int) <= 1073741824,
                abs_i(dy as int) <= 1073741824,
                abs_i(dz as int) <= 1073741824,
                0 <= ms <= 1000000000,
        ;
    }
    let sx: i64 = div_toward_zero(dx * ms, lc);
    let sy: i64 = div_toward_zero(dy * ms, lc);
    let sz: i64 = div_toward_zero(dz * ms, lc);
    let r = Vec3 { x: p.x + sx, y: p.y + sy, z: p.z + sz };
    proof {
        lemma_sdiv_mul_le(dx as int * ms, lc as int);
        lemma_sdiv_mul_le(dy as int * ms, lc as int);
        lemma_sdiv_mul_le(dz as int * ms, lc as int);
        assert(abs_i(dx as int * ms) == abs_i(dx as int) * ms && abs_i(dy as int * ms) == abs_i(
            dy as int,
        ) * ms && abs_i(dz as int * ms) == abs_i(dz as int) * ms) by (nonlinear_arith)
            requires
                ms >= 0,
        ;
        lemma_step_within(
            dx as int,
            dy as int,
            dz as int,
            sx as int,
            sy as int,
            sz as int,
            lc as int,
            ms as int,
        );
        lemma_sdiv_sign(dx as int * ms, lc as int);
        lemma_sdiv_sign(dy as int * ms, lc as int);
        lemma_sdiv_sign(dz as int * ms, lc as int);
        assert((dx as int >= 0 ==> dx as int * ms >= 0) && (dx as int <= 0 ==> dx as int * ms
            <= 0) && (dy as int >= 0 ==> dy as int * ms >= 0) && (dy as int <= 0 ==> dy as int
            * ms <= 0) && (dz as int >= 0 ==> dz as int * ms >= 0) && (dz as int <= 0
            ==> dz as int * ms <= 0)) by (nonlinear_arith)
            requires
                ms >= 0,
        ;
        assert(r != t) by {
            if sx == dx && sy == dy && sz == dz {
                assert(norm2_3(sx as int, sy as int, sz as int) <= ms * ms);
            }
        }
    }
    r
}

/// A component is never longer than the whole spatial vector.
pub proof fn lemma_component_le_norm3(dx: int, dy: int, dz: int)
    ensures
        abs_i(dx) <= sqrt_floor(norm2_3(dx, dy, dz) as nat),
        abs_i(dy) <= sqrt_floor(norm2_3(dx, dy, dz) as nat),
        abs_i(dz) <= sqrt_floor(norm2_3(dx, dy, dz) as nat),
{
    assert(norm2_3(dx, dy, dz) >= 0 && abs_i(dx) * abs_i(dx) <= norm2_3(dx, dy, dz) && abs_i(dy)
        * abs_i(dy) <= norm2_3(dx, dy, dz) && abs_i(dz) * abs_i(dz) <= norm2_3(
        dx,
        dy,
        dz,
    )) by (nonlinear_arith);
    lemma_sqrt_floor_le(abs_i(dx) as nat, norm2_3(dx, dy, dz) as nat);
    lemma_sqrt_floor_le(abs_i(dy) as nat, norm2_3(dx, dy, dz) as nat);
    lemma_sqrt_floor_le(abs_i(dz) as nat, norm2_3(dx, dy, dz) as nat);
}

/// Squaring a magnitude inequality.
proof fn lemma_sq_le(s: int, l: int, d: int, m: int)
    requires
        abs_i(s) * l <= abs_i(d) * m,
        l >= 0,
        m >= 0,
    ensures
        s * s * (l * l) <= d * d * (m * m),
{
    assert(s * s * (l * l) == (abs_i(s) * l) * (abs_i(s) * l) && d * d * (m * m) == (abs_i(d)
        * m) * (abs_i(d) * m)) by (nonlinear_arith);
    assert((abs_i(s) * l) * (abs_i(s) * l) <= (abs_i(d) * m) * (abs_i(d) * m))
        by (nonlinear_arith)
        requires
            0 <= abs_i(s) * l <= abs_i(d) * m,
    ;
}

/// A step scaled down through a strict over-estimate of the length has
/// length at most `ms`.
proof fn lemma_step_within(dx: int, dy: int, dz: int, sx: int, sy: int, sz: int, l: int, ms: int)
    requires
        l >= 1,
        ms >= 0,
        norm2_3(dx, dy, dz) < l * l,
        abs_i(sx) * l <= abs_i(dx) * ms,
        abs_i(sy) * l <= abs_i(dy) * ms,
        abs_i(sz) * l <= abs_i(dz) * ms,
    ensures
        norm2_3(sx, sy, sz) <= ms * ms,
{
    lemma_sq_le(sx, l, dx, ms);
    lemma_sq_le(sy, l, dy, ms);
    lemma_sq_le(sz, l, dz, ms);
    assert(norm2_3(sx, sy, sz) * (l * l) == sx * sx * (l * l) + sy * sy * (l * l) + sz * sz * (l
        * l) && norm2_3(dx, dy, dz) * (ms * ms) == dx * dx * (ms * ms) + dy * dy * (ms * ms) + dz
        * dz * (ms * ms)) by (nonlinear_arith);
    assert(norm2_3(sx, sy, sz) >= 0 && ms * ms >= 0) by (nonlinear_arith);
    assert(norm2_3(dx, dy, dz) * (ms * ms) <= (l * l) * (ms * ms)) by (nonlinear_arith)
        requires
            norm2_3(dx, dy, dz) < l * l,
            ms * ms >= 0,
    ;
    assert(norm2_3(sx, sy, sz) <= ms * ms) by (nonlinear_arith)
        requires
            norm2_3(sx, sy, sz) * (l * l) <= (l * l) * (ms * ms),
            norm2_3(sx, sy, sz) >= 0,
            l >= 1,
            ms >= 0,
    ;
}

/// The planar facing angle of a direction, in milli-degrees in
/// `[0, 360000)`: a piecewise-linear approximation of the true angle that
/// is exact on the axis and diagonal directions and monotone within each
/// octant (linear in the tangent rather than the arc). The zero vector
/// faces angle `0`.
pub open spec fn angle_spec(dx: int, dy: int) -> int {
    if dx == 0 && dy == 0 {
        0
    } else if dx >= abs_i(dy) {
        let a = sdiv(45000 * dy, dx);
        if a < 0 {
            a + 360000
        } else {
            a
        }
    } else if dy >= abs_i(dx) {
        90000 - sdiv(45000 * dx, dy)
    } else if -dx >= abs_i(dy) {
        180000 - sdiv(45000 * dy, -dx)
    } else {
        270000 + sdiv(45000 * dx, -dy)
    }
}

/// Facing angle in milli-degrees; see [`angle_spec`].
pub fn angle_milli(dx: i64, dy: i64) -> (r: i64)
    requires
        abs_i(dx as int) <= 2 * COORD_MAX,
        abs_i(dy as int) <= 2 * COORD_MAX,
    ensures
        r == angle_spec(dx as int, dy as int),
        0 <= r < 360000,
{
    if dx == 0 && dy == 0 {
        return 0;
    }
    let ax: i64 = if dx >= 0 {
        dx
    } else {
        -dx
    };
    let ay: i64 = if dy >= 0 {
        dy
    } else {
        -dy
    };
    if dx >= ay {
        proof {
            lemma_scaled_octant(dy as int, dx as int);
        }
        let a: i64 = div_toward_zero(45000 * dy, dx);
        if a < 0 {
            a + 360000
        } else {
            a
        }
    } else if dy >= ax {
        proof {
            lemma_scaled_octant(dx as int, dy as int);
        }
        90000 - div_toward_zero(45000 * dx, dy)
    } else if -dx >= ay {
        proof {
            lemma_scaled_octant(dy as int, -dx as int);
        }
        180000 - div_toward_zero(45000 * dy, -dx)
    } else {
        proof {
            lemma_scaled_octant(dx as int, -dy as int);
        }
        270000 + div_toward_zero(45000 * dx, -dy)
    }
}

/// Within an octant, the scaled tangent is at most the half-turn unit.
proof fn lemma_scaled_octant(num: int, den: int)
    requires
        den >= abs_i(num),
        den >= 1,
    ensures
        abs_i(sdiv(45000 * num, den)) <= 45000,
{
    assert(abs_i(45000 * num) <= 45000 * den) by (nonlinear_arith)
        requires
            abs_i(num) <= den,
    ;
    lemma_sdiv_bound(45000 * num, den, 45000);
}

/// The offset into a disc of radius `r` picked by two raw draws: each draw
/// selects a coordinate uniformly in `[-r, r]`, and an offset outside the
/// disc is scaled back onto it (through a strict over-estimate of its
/// length, so the result always lies within the disc).
pub open spec fn disc_offset_spec(r: int, d1: u64, d2: u64) -> (int, int) {
    let ox = (d1 as int) % (2 * r + 1) - r;
    let oy = (d2 as int) % (2 * r + 1) - r;
    if norm2(ox, oy) <= r * r {
        (ox, oy)
    } else {
        let l = sqrt_floor(norm2(ox, oy) as nat) as int + 1;
        (sdiv(ox * r, l), sdiv(oy * r, l))
    }
}

/// Turn two raw draws into a point of the disc of radius `r` around `c`
/// (clamped to the world's bounds); see [`disc_offset_spec`].
pub fn disc_point(c: Vec2, r: i64, d1: u64, d2: u64) -> (pt: Vec2)
    requires
        v2_ok(c),
        0 <= r <= 1073741824,
    ensures
        pt.x == clamp_c(c.x + disc_offset_spec(r as int, d1, d2).0),
        pt.y == clamp_c(c.y + disc_offset_spec(r as int, d1, d2).1),
        v2_ok(pt),
        norm2(disc_offset_spec(r as int, d1, d2).0, disc_offset_spec(r as int, d1, d2).1) <= r
            * r,
{
    let m: u64 = (2 * r + 1) as u64;
    let ox: i64 = (d1 % m) as i64 - r;
    let oy: i64 = (d2 % m) as i64 - r;
    proof {
        assert(0 <= ox * ox <= 1152921504606846976 && 0 <= oy * oy <= 1152921504606846976
            && 0 <= r * r <= 1152921504606846976) by (nonlinear_arith)
            requires
                abs_i(ox as int) <= 1073741824,
                abs_i(oy as int) <= 1073741824,
                0 <= r <= 1073741824,
        ;
    }
    if ox * ox + oy * oy <= r * r {
        return Vec2 { x: clamp_coord(c.x + ox), y: clamp_coord(c.y + oy) };
    }
    let n2: u64 = (ox * ox + oy * oy) as u64;
    let l: u64 = isqrt(n2);
    let lc: i64 = (l + 1) as i64;
    proof {
        lemma_sqrt_floor(n2 as nat);
        lemma_sqrt_floor_le(r as nat, n2 as nat);
        assert(r * r <= n2);
        lemma_component_le_norm(ox as int, oy as int);
        assert(abs_i(ox as int * r) <= abs_i(ox as int) * r && abs_i(oy as int * r) <= abs_i(
            oy as int,
        ) * r) by (nonlinear_arith)
            requires
                r >= 0,
        ;
        assert(abs_i(ox as int) * r <= abs_i(ox as int) * (lc as int) && abs_i(oy as int) * r
            <= abs_i(oy as int) * (lc as int)) by (nonlinear_arith)
            requires
                0 <= r <= lc as int,
                abs_i(ox as int) >= 0,
                abs_i(oy as int) >= 0,
        ;
        lemma_sdiv_bound(ox as int * r, lc as int, abs_i(ox as int));
        lemma_sdiv_bound(oy as int * r, lc as int, abs_i(oy as int));
        assert(abs_i(ox as int * r) <= 1152921504606846976 && abs_i(oy as int * r)
            <= 1152921504606846976) by (nonlinear_arith)
            requires
                abs_i(ox as int) <= 1073741824,
                abs_i(oy as int) <= 1073741824,
                0 <= r <= 1073741824,
        ;
    }
    let sx: i64 = div_toward_zero(ox * r, lc);
    let sy: i64 = div_toward_zero(oy * r, lc);
    proof {
        lemma_sdiv_mul_le(ox as int * r, lc as int);
        lemma_sdiv_mul_le(oy as int * r, lc as int);
        assert(abs_i(ox as int * r) == abs_i(ox as int) * r && abs_i(oy as int * r) == abs_i(
            oy as int,
        ) * r) by (nonlinear_arith)
            requires
                r >= 0,
        ;
        lemma_scaled_offset_within(ox as int, oy as int, sx as int, sy as int, lc as int, r as int);
    }
    Vec2 { x: clamp_coord(c.x + sx), y: clamp_coord(c.y + sy) }
}

/// An offset scaled down through a strict over-estimate of its length lies
/// within the disc of radius `r`.
proof fn lemma_scaled_offset_within(ox: int, oy: int, sx: int, sy: int, l: int, r: int)
    requires
        l >= 1,
        r >= 0,
        norm2(ox, oy) < l * l,
        abs_i(sx) * l <= abs_i(ox) * r,
        abs_i(sy) * l <= abs_i(oy) * r,
    ensures
        norm2(sx, sy) <= r * r,
{
    lemma_sq_le(sx, l, ox, r);
    lemma_sq_le(sy, l, oy, r);
    assert(norm2(sx, sy) * (l * l) == sx * sx * (l * l) + sy * sy * (l * l) && norm2(ox, oy) * (r
        * r) == ox * ox * (r * r) + oy * oy * (r * r)) by (nonlinear_arith);
    assert(norm2(sx, sy) >= 0 && r * r >= 0) by (nonlinear_arith);
    assert(norm2(ox, oy) * (r * r) <= (l * l) * (r * r)) by (nonlinear_arith)
        requires
            norm2(ox, oy) < l * l,
            r * r >= 0,
    ;
    assert(norm2(sx, sy) <= r * r) by (nonlinear_arith)
        requires
            norm2(sx, sy) * (l * l) <= (l * l) * (r * r),
            norm2(sx, sy) >= 0,
            l >= 1,
            r >= 0,
    ;
}


/// A hit is never behind the ray's origin.
pub proof fn lemma_intersect_nonneg(from: Vec2, dir: Vec2, center: Vec2, radius: int)
    ensures
        intersect_spec(from, dir, center, radius) matches Some(t) ==> t >= 0,
{
}

} // verus!
