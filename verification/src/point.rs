use vstd::prelude::*;

verus! {

/// How many units make up one: coordinates and lengths are fixed-point
/// numbers with 24 fractional bits.
pub const UNIT: u32 = 16_777_216;

/// The largest magnitude of a [`Vec2`] coordinate, two to the power 62.
pub const VEC2_LIMIT: i64 = 4_611_686_018_427_387_904;

/// A point of the plane with integer coordinates. What one step of a
/// coordinate stands for depends on the space the point lives in.
pub struct Point {
    pub x: int,
    pub y: int,
}

impl Point {
    /// Whether the point, read in units of `1 / UNIT`, lies in the closed
    /// unit square.
    pub open spec fn in_unit_square(self) -> bool {
        0 <= self.x <= UNIT && 0 <= self.y <= UNIT
    }

    /// The square of the Euclidean distance to `other`.
    pub open spec fn dist_sq(self, other: Point) -> int {
        (other.x - self.x) * (other.x - self.x) + (other.y - self.y) * (other.y - self.y)
    }
}

/// `r` is the square root of `n`, rounded down.
pub open spec fn is_floor_sqrt(r: int, n: int) -> bool {
    0 <= r && r * r <= n < (r + 1) * (r + 1)
}

/// A number has at most one rounded-down square root.
pub proof fn lemma_floor_sqrt_unique(r1: int, r2: int, n: int)
    requires
        is_floor_sqrt(r1, n),
        is_floor_sqrt(r2, n),
    ensures
        r1 == r2,
{
    if r1 < r2 {
        assert((r1 + 1) * (r1 + 1) <= r2 * r2) by (nonlinear_arith)
            requires
                0 <= r1,
                r1 + 1 <= r2,
        ;
    } else if r2 < r1 {
        assert((r2 + 1) * (r2 + 1) <= r1 * r1) by (nonlinear_arith)
            requires
                0 <= r2,
                r2 + 1 <= r1,
        ;
    }
}

/// A rounded-down square root lies below a bound exactly when the number
/// lies below the bound's square.
pub proof fn lemma_floor_sqrt_below(s: int, n: int, bound: int)
    requires
        is_floor_sqrt(s, n),
        0 <= bound,
    ensures
        s < bound <==> n < bound * bound,
{
    if s < bound {
        assert((s + 1) * (s + 1) <= bound * bound) by (nonlinear_arith)
            requires
                0 <= s,
                s + 1 <= bound,
        ;
    } else {
        assert(bound * bound <= s * s) by (nonlinear_arith)
            requires
                0 <= bound,
                bound <= s,
        ;
    }
}

/// The square root of `n`, rounded down.
pub fn isqrt(n: u128) -> (r: u64)
    ensures
        is_floor_sqrt(r as int, n as int),
{
    let mut lo: u128 = 0;
    let mut hi: u128 = 0x1_0000_0000_0000_0000;
    assert(hi * hi > n) by (nonlinear_arith)
        requires
            hi == 0x1_0000_0000_0000_0000,
            n <= u128::MAX,
    ;
    while hi - lo > 1
        invariant
            lo < hi <= 0x1_0000_0000_0000_0000,
            lo * lo <= n < hi * hi,
        decreases hi - lo,
    {
        let mid: u128 = lo + (hi - lo) / 2;
        assert(mid * mid <= u128::MAX) by (nonlinear_arith)
            requires
                0 <= mid < 0x1_0000_0000_0000_0000,
        ;
        if mid * mid <= n {
            lo = mid;
        } else {
            hi = mid;
        }
    }
    lo as u64
}

/// A point of the closed unit square, in units of `1 / UNIT`: a shape is
/// described in these coordinates whatever the size of the canvas.
#[derive(Clone, Copy, Debug, PartialEq, Eq)]
pub struct NDC {
    x: u32,
    y: u32,
}

impl View for NDC {
    type V = Point;

    closed spec fn view(&self) -> Point {
        Point { x: self.x as int, y: self.y as int }
    }
}

impl NDC {
    #[verifier::type_invariant]
    spec fn inv(self) -> bool {
        self.x <= UNIT && self.y <= UNIT
    }

    /// The point `(x / UNIT, y / UNIT)`, provided that it lies in the closed
    /// unit square.
    pub fn new(x: i64, y: i64) -> (r: Option<NDC>)
        ensures
            r is Some <==> (Point { x: x as int, y: y as int }).in_unit_square(),
            r matches Some(p) ==> p@ == (Point { x: x as int, y: y as int }),
    {
        if x >= 0 && x <= UNIT as i64 && y >= 0 && y <= UNIT as i64 {
            Some(NDC { x: x as u32, y: y as u32 })
        } else {
            None
        }
    }

    /// The horizontal coordinate, in units of `1 / UNIT`.
    pub fn x(&self) -> (v: u32)
        ensures
            v == self@.x,
            self@.in_unit_square(),
    {
        proof {
            use_type_invariant(self);
        }
        self.x
    }

    /// The vertical coordinate, in units of `1 / UNIT`.
    pub fn y(&self) -> (v: u32)
        ensures
            v == self@.y,
            self@.in_unit_square(),
    {
        proof {
            use_type_invariant(self);
        }
        self.y
    }

    /// The Euclidean distance to `other` in units of `1 / UNIT`, rounded
    /// down.
    pub fn dist(&self, other: NDC) -> (d: u64)
        ensures
            is_floor_sqrt(d as int, self@.dist_sq(other@)),
    {
        let dx: u64 = gap(self.x(), other.x()) as u64;
        let dy: u64 = gap(self.y(), other.y()) as u64;
        assert(dx * dx + dy * dy <= 2 * (UNIT as int) * (UNIT as int)) by (nonlinear_arith)
            requires
                0 <= dx <= UNIT,
                0 <= dy <= UNIT,
        ;
        assert(dx * dx >= 0 && dy * dy >= 0) by (nonlinear_arith);
        assert(dx * dx == (other@.x - self@.x) * (other@.x - self@.x)) by (nonlinear_arith)
            requires
                dx == other@.x - self@.x || dx == self@.x - other@.x,
        ;
        assert(dy * dy == (other@.y - self@.y) * (other@.y - self@.y)) by (nonlinear_arith)
            requires
                dy == other@.y - self@.y || dy == self@.y - other@.y,
        ;
        isqrt((dx * dx + dy * dy) as u128)
    }
}

/// The distance between two numbers.
fn gap(a: u32, b: u32) -> (d: u32)
    ensures
        d == if a >= b { a - b } else { b - a },
{
    if a >= b {
        a - b
    } else {
        b - a
    }
}

/// A point in pixel space, in units of `1 / UNIT` of a pixel, with
/// coordinates of magnitude at most `VEC2_LIMIT`.
#[derive(Clone, Copy, Debug, PartialEq, Eq)]
pub struct Vec2 {
    x: i64,
    y: i64,
}

impl View for Vec2 {
    type V = Point;

    closed spec fn view(&self) -> Point {
        Point { x: self.x as int, y: self.y as int }
    }
}

/// Whether a coordinate is one that a [`Vec2`] can hold.
pub open spec fn within_vec2_limit(v: int) -> bool {
    -VEC2_LIMIT <= v <= VEC2_LIMIT
}

impl Vec2 {
    #[verifier::type_invariant]
    spec fn inv(self) -> bool {
        within_vec2_limit(self.x as int) && within_vec2_limit(self.y as int)
    }

    /// The point `(x, y)`, provided that both coordinates are within
    /// `VEC2_LIMIT` of zero.
    pub fn new(x: i64, y: i64) -> (r: Option<Vec2>)
        ensures
            r is Some <==> within_vec2_limit(x as int) && within_vec2_limit(y as int),
            r matches Some(p) ==> p@ == (Point { x: x as int, y: y as int }),
    {
        if x >= -VEC2_LIMIT && x <= VEC2_LIMIT && y >= -VEC2_LIMIT && y <= VEC2_LIMIT {
            Some(Vec2 { x, y })
        } else {
            None
        }
    }

    /// The Euclidean distance to `other`, rounded down.
    pub fn distance(&self, other: Vec2) -> (d: u64)
        ensures
            is_floor_sqrt(d as int, self@.dist_sq(other@)),
    {
        proof {
            use_type_invariant(self);
            use_type_invariant(&other);
        }
        let dx: i128 = other.x as i128 - self.x as i128;
        let dy: i128 = other.y as i128 - self.y as i128;
        assert(0 <= dx * dx <= 0x4000_0000_0000_0000_0000_0000_0000_0000) by (nonlinear_arith)
            requires
                -0x8000_0000_0000_0000 <= dx <= 0x8000_0000_0000_0000,
        ;
        assert(0 <= dy * dy <= 0x4000_0000_0000_0000_0000_0000_0000_0000) by (nonlinear_arith)
            requires
                -0x8000_0000_0000_0000 <= dy <= 0x8000_0000_0000_0000,
        ;
        isqrt((dx * dx) as u128 + (dy * dy) as u128)
    }
}

} // verus!
