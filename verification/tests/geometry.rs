use crabs_server::geom::angle_milli;
use crabs_server::geom::clamp_coord;
use crabs_server::geom::disc_point;
use crabs_server::geom::div_toward_zero;
use crabs_server::geom::intersect;
use crabs_server::geom::isqrt;
use crabs_server::geom::move_toward;
use crabs_server::geom::normalize_milli;
use crabs_server::geom::step_coord;
use crabs_server::geom::COORD_MAX;
use crabs_server::geom::Vec2;
use crabs_server::geom::Vec3;

#[test]
fn isqrt_exact_squares_and_neighbors() {
    assert_eq!(isqrt(0), 0);
    assert_eq!(isqrt(1), 1);
    assert_eq!(isqrt(3), 1);
    assert_eq!(isqrt(4), 2);
    assert_eq!(isqrt(999999), 999);
    assert_eq!(isqrt(1000000), 1000);
    assert_eq!(isqrt(u64::MAX), 4294967295);
}

#[test]
fn normalize_axis_and_zero() {
    let d = normalize_milli(5000, 0);
    assert_eq!((d.x, d.y), (1000, 0));
    let d = normalize_milli(0, -7000);
    assert_eq!((d.x, d.y), (0, -1000));
    let d = normalize_milli(0, 0);
    assert_eq!((d.x, d.y), (0, 0));
    // a diagonal comes out close to unit length, rounded down
    let d = normalize_milli(3000, 4000);
    assert_eq!((d.x, d.y), (600, 800));
}

#[test]
fn ray_circle_head_on_hits_at_three_units() {
    // origin (0,0), direction (1,0), center (5,0), radius 2 -> t = 3.0
    let t = intersect(
        Vec2 { x: 0, y: 0 },
        Vec2 { x: 1000, y: 0 },
        Vec2 { x: 5000, y: 0 },
        2000,
    );
    assert_eq!(t, Some(3000));
}

#[test]
fn ray_circle_misses_when_perpendicular_distance_exceeds_radius() {
    // center (5,3), radius 2: perpendicular distance 3 > 2 -> no hit
    let t = intersect(
        Vec2 { x: 0, y: 0 },
        Vec2 { x: 1000, y: 0 },
        Vec2 { x: 5000, y: 3000 },
        2000,
    );
    assert_eq!(t, None);
}

#[test]
fn ray_circle_origin_inside_hits_at_zero() {
    // origin (1,0) inside circle centered (0,0) radius 2 -> t = 0
    let t = intersect(
        Vec2 { x: 1000, y: 0 },
        Vec2 { x: 1000, y: 0 },
        Vec2 { x: 0, y: 0 },
        2000,
    );
    assert_eq!(t, Some(0));
}

#[test]
fn ray_circle_behind_origin_misses() {
    // circle strictly behind the ray
    let t = intersect(
        Vec2 { x: 0, y: 0 },
        Vec2 { x: 1000, y: 0 },
        Vec2 { x: -5000, y: 0 },
        2000,
    );
    assert_eq!(t, None);
}

#[test]
fn move_toward_reaches_and_clamps() {
    let p = Vec3 { x: 0, y: 0, z: 0 };
    let t = Vec3 { x: 5000, y: 0, z: 0 };
    // within one step: snaps exactly to the target
    assert_eq!(move_toward(p, t, 5000), t);
    assert_eq!(move_toward(p, t, 6000), t);
    // beyond one step: moves at most the step length, no overshoot
    let m = move_toward(p, t, 1000);
    assert!(m.x > 0 && m.x <= 1000);
    assert_eq!((m.y, m.z), (0, 0));
}

#[test]
fn angle_of_cardinal_directions() {
    assert_eq!(angle_milli(1000, 0), 0);
    assert_eq!(angle_milli(0, 1000), 90000);
    assert_eq!(angle_milli(-1000, 0), 180000);
    assert_eq!(angle_milli(0, -1000), 270000);
    assert_eq!(angle_milli(1000, 1000), 45000);
    assert_eq!(angle_milli(1000, -1000), 315000);
    assert_eq!(angle_milli(0, 0), 0);
}

#[test]
fn clamp_and_division_round_toward_zero() {
    assert_eq!(clamp_coord(COORD_MAX + 5), COORD_MAX);
    assert_eq!(clamp_coord(-COORD_MAX - 5), -COORD_MAX);
    assert_eq!(clamp_coord(42), 42);
    assert_eq!(div_toward_zero(7, 2), 3);
    assert_eq!(div_toward_zero(-7, 2), -3);
    assert_eq!(step_coord(100, 2000, 100), 300);
    assert_eq!(step_coord(100, -2000, 100), -100);
}

#[test]
fn disc_point_stays_within_radius() {
    for d1 in [0u64, 17, 991, u64::MAX] {
        for d2 in [3u64, 12345, u64::MAX - 7] {
            let p = disc_point(Vec2 { x: 100, y: -200 }, 5000, d1, d2);
            let dx = (p.x - 100) as i128;
            let dy = (p.y + 200) as i128;
            assert!(dx * dx + dy * dy <= 5000 * 5000);
        }
    }
}
