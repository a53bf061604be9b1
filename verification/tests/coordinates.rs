use shape_raster::point::{isqrt, Vec2, NDC, UNIT, VEC2_LIMIT};

const ONE: i64 = UNIT as i64;

#[test]
fn unit_is_two_to_the_24() {
    assert_eq!(UNIT, 1 << 24);
    assert_eq!(VEC2_LIMIT, 1 << 62);
}

#[test]
fn coordinates_of_the_unit_square_are_accepted() {
    for (x, y) in [(0, 0), (ONE, ONE), (0, ONE), (ONE, 0), (ONE / 2, ONE / 4), (1, ONE - 1)] {
        let p = NDC::new(x, y).unwrap();
        assert_eq!(p.x() as i64, x);
        assert_eq!(p.y() as i64, y);
    }
}

#[test]
fn coordinates_outside_the_unit_square_are_refused() {
    assert_eq!(NDC::new(-1, 0), None);
    assert_eq!(NDC::new(0, -1), None);
    assert_eq!(NDC::new(ONE + 1, 0), None);
    assert_eq!(NDC::new(0, ONE + 1), None);
    assert_eq!(NDC::new(ONE + 1, ONE + 1), None);
    assert_eq!(NDC::new(i64::MIN, ONE / 2), None);
    assert_eq!(NDC::new(ONE / 2, i64::MAX), None);
    assert_eq!(NDC::new(1 << 32, 0), None);
}

#[test]
fn isqrt_rounds_down() {
    assert_eq!(isqrt(0), 0);
    assert_eq!(isqrt(1), 1);
    assert_eq!(isqrt(3), 1);
    assert_eq!(isqrt(4), 2);
    assert_eq!(isqrt(24), 4);
    assert_eq!(isqrt(25), 5);
    assert_eq!(isqrt(26), 5);
    assert_eq!(isqrt(1 << 100), 1 << 50);
    assert_eq!(isqrt((1 << 100) - 1), (1 << 50) - 1);
    assert_eq!(isqrt(u128::MAX), u64::MAX);
}

#[test]
fn dist_is_the_euclidean_distance() {
    let origin = NDC::new(0, 0).unwrap();
    let right = NDC::new(ONE, 0).unwrap();
    let corner = NDC::new(ONE, ONE).unwrap();
    assert_eq!(origin.dist(origin), 0);
    assert_eq!(origin.dist(right), UNIT as u64);
    assert_eq!(right.dist(origin), UNIT as u64);
    // The diagonal of the unit square: the square root of two, rounded down.
    assert_eq!(origin.dist(corner), 23_726_566);
    let p = NDC::new(3000, 10).unwrap();
    let q = NDC::new(0, 4010).unwrap();
    assert_eq!(p.dist(q), 5000);
    assert_eq!(q.dist(p), 5000);
}

#[test]
fn vec2_holds_coordinates_within_its_limit() {
    assert!(Vec2::new(0, 0).is_some());
    assert!(Vec2::new(VEC2_LIMIT, -VEC2_LIMIT).is_some());
    assert_eq!(Vec2::new(VEC2_LIMIT + 1, 0), None);
    assert_eq!(Vec2::new(0, -VEC2_LIMIT - 1), None);
    assert_eq!(Vec2::new(i64::MAX, i64::MIN), None);
}

#[test]
fn vec2_distance_is_the_euclidean_distance() {
    let a = Vec2::new(-3, 0).unwrap();
    let b = Vec2::new(0, 4).unwrap();
    assert_eq!(a.distance(b), 5);
    assert_eq!(b.distance(a), 5);
    assert_eq!(a.distance(a), 0);
    let c = Vec2::new(1, 1).unwrap();
    let d = Vec2::new(2, 2).unwrap();
    assert_eq!(c.distance(d), 1);
    let far = Vec2::new(VEC2_LIMIT, VEC2_LIMIT).unwrap();
    let near = Vec2::new(-VEC2_LIMIT, -VEC2_LIMIT).unwrap();
    // Two to the power 63 times the square root of two, rounded down.
    assert_eq!(near.distance(far), 13_043_817_825_332_782_212);
}
