use vstd::prelude::*;
use crate::point::{Point, UNIT};

verus! {

/// Two areas of the unit square count as equal where they differ by less
/// than one part in this many.
pub const TOLERANCE_INVERSE: u32 = 1_000_000;

/// The absolute value of `v`.
pub open spec fn magnitude(v: int) -> int {
    if v >= 0 {
        v
    } else {
        -v
    }
}

/// The least of three numbers.
pub open spec fn min3(a: int, b: int, c: int) -> int {
    if a <= b && a <= c {
        a
    } else if b <= c {
        b
    } else {
        c
    }
}

/// The greatest of three numbers.
pub open spec fn max3(a: int, b: int, c: int) -> int {
    if a >= b && a >= c {
        a
    } else if b >= c {
        b
    } else {
        c
    }
}

/// Twice the signed area of the triangle `pqr`: positive where the three
/// points turn one way, negative where they turn the other, zero where they
/// lie on one line.
pub open spec fn cross(p: Point, q: Point, r: Point) -> int {
    p.x * (q.y - r.y) + q.x * (r.y - p.y) + r.x * (p.y - q.y)
}

/// Twice the area of the triangle `pqr`.
pub open spec fn doubled_area(p: Point, q: Point, r: Point) -> int {
    magnitude(cross(p, q, r))
}

/// The unit-square point `v` in the lattice whose steps are `1 / (xd * UNIT)`
/// across and `1 / (yd * UNIT)` down.
pub open spec fn stretch(v: Point, xd: int, yd: int) -> Point {
    Point { x: v.x * xd, y: v.y * yd }
}

/// The point `(xn / xd, yn / yd)` of the plane in that same lattice.
pub open spec fn sample(xn: int, yn: int) -> Point {
    Point { x: xn * UNIT, y: yn * UNIT }
}

/// Whether the point `(xn / xd, yn / yd)` belongs to the triangle `abc`,
/// whose vertices are given in units of `1 / UNIT`: the three triangles that
/// the point makes with each side have, together, the area of `abc`, to
/// within one part in `TOLERANCE_INVERSE` of the unit square. The test asks
/// for no area: of three vertices on one line it accepts the points of that
/// line.
pub open spec fn inside_triangle(xn: int, xd: int, yn: int, yd: int, a: Point, b: Point, c: Point) -> bool {
    let p = sample(xn, yn);
    let a1 = stretch(a, xd, yd);
    let b1 = stretch(b, xd, yd);
    let c1 = stretch(c, xd, yd);
    let whole = doubled_area(a1, b1, c1);
    let parts = doubled_area(p, b1, c1) + doubled_area(p, c1, a1) + doubled_area(p, a1, b1);
    magnitude(whole - parts) * TOLERANCE_INVERSE < 2 * ((xd * UNIT) * (yd * UNIT))
}

/// Whether the unit-square point `p` belongs to the triangle `abc`.
pub open spec fn in_triangle(p: Point, a: Point, b: Point, c: Point) -> bool {
    inside_triangle(p.x, UNIT as int, p.y, UNIT as int, a, b, c)
}

/// The pixel index of the unit-square coordinate `v` on an axis of `dim`
/// pixels: `v * dim / UNIT`, rounded down.
pub open spec fn to_pixel(v: int, dim: int) -> int {
    (v * dim) / (UNIT as int)
}

/// Whether filling the triangle `abc` on a canvas of `width` by `height`
/// pixels paints the pixel `(col, row)`: the triangle has area, the pixel
/// lies in the box spanned by the pixel indices of the least and the greatest
/// coordinate of the vertices, both ends included, and the point
/// `(col / width, row / height)` belongs to the triangle. Three vertices on
/// one line make no triangle, and nothing is painted for them.
pub open spec fn triangle_covers(width: int, height: int, a: Point, b: Point, c: Point, col: int, row: int) -> bool {
    &&& doubled_area(a, b, c) > 0
    &&& to_pixel(min3(a.x, b.x, c.x), width) <= col <= to_pixel(max3(a.x, b.x, c.x), width)
    &&& to_pixel(min3(a.y, b.y, c.y), height) <= row <= to_pixel(max3(a.y, b.y, c.y), height)
    &&& inside_triangle(col, width, row, height, a, b, c)
}

/// Whether filling the disc around `center` paints the pixel `(col, row)` of
/// a canvas of `width` by `height` pixels. The centre is a unit-square point
/// and stands at `(center.x * width / UNIT, center.y * height / UNIT)` in
/// pixel space; `radius` is a length in pixel space, in units of `1 / UNIT`
/// of a pixel. The pixel is painted where its distance to the centre is less
/// than the radius.
pub open spec fn disc_covers(width: int, height: int, center: Point, radius: int, col: int, row: int) -> bool {
    let c = Point { x: center.x * width, y: center.y * height };
    let p = Point { x: col * UNIT, y: row * UNIT };
    c.dist_sq(p) < radius * radius
}

/// Turning the vertices of a triangle round leaves its signed area as it is.
pub proof fn lemma_cross_rotate(p: Point, q: Point, r: Point)
    ensures
        cross(q, r, p) == cross(p, q, r),
        cross(r, p, q) == cross(p, q, r),
{
    assert(cross(q, r, p) == cross(p, q, r)) by (nonlinear_arith)
        requires
            cross(p, q, r) == p.x * (q.y - r.y) + q.x * (r.y - p.y) + r.x * (p.y - q.y),
            cross(q, r, p) == q.x * (r.y - p.y) + r.x * (p.y - q.y) + p.x * (q.y - r.y),
    ;
    assert(cross(r, p, q) == cross(p, q, r)) by (nonlinear_arith)
        requires
            cross(p, q, r) == p.x * (q.y - r.y) + q.x * (r.y - p.y) + r.x * (p.y - q.y),
            cross(r, p, q) == r.x * (p.y - q.y) + p.x * (q.y - r.y) + q.x * (r.y - p.y),
    ;
}

/// Exchanging two vertices of a triangle negates its signed area.
pub proof fn lemma_cross_swap(p: Point, q: Point, r: Point)
    ensures
        cross(q, p, r) == -cross(p, q, r),
        cross(p, r, q) == -cross(p, q, r),
        cross(r, q, p) == -cross(p, q, r),
{
    assert(cross(q, p, r) == -cross(p, q, r)) by (nonlinear_arith)
        requires
            cross(p, q, r) == p.x * (q.y - r.y) + q.x * (r.y - p.y) + r.x * (p.y - q.y),
            cross(q, p, r) == q.x * (p.y - r.y) + p.x * (r.y - q.y) + r.x * (q.y - p.y),
    ;
    assert(cross(p, r, q) == -cross(p, q, r)) by (nonlinear_arith)
        requires
            cross(p, q, r) == p.x * (q.y - r.y) + q.x * (r.y - p.y) + r.x * (p.y - q.y),
            cross(p, r, q) == p.x * (r.y - q.y) + r.x * (q.y - p.y) + q.x * (p.y - r.y),
    ;
    assert(cross(r, q, p) == -cross(p, q, r)) by (nonlinear_arith)
        requires
            cross(p, q, r) == p.x * (q.y - r.y) + q.x * (r.y - p.y) + r.x * (p.y - q.y),
            cross(r, q, p) == r.x * (q.y - p.y) + q.x * (p.y - r.y) + p.x * (r.y - q.y),
    ;
}

/// The area of a triangle does not depend on the order of its vertices.
pub proof fn lemma_doubled_area_symmetric(p: Point, q: Point, r: Point)
    ensures
        doubled_area(q, r, p) == doubled_area(p, q, r),
        doubled_area(r, p, q) == doubled_area(p, q, r),
        doubled_area(q, p, r) == doubled_area(p, q, r),
        doubled_area(p, r, q) == doubled_area(p, q, r),
        doubled_area(r, q, p) == doubled_area(p, q, r),
{
    lemma_cross_rotate(p, q, r);
    lemma_cross_swap(p, q, r);
}

/// Membership in a triangle does not depend on the order in which its
/// vertices are given.
pub proof fn lemma_inside_triangle_symmetric(xn: int, xd: int, yn: int, yd: int, a: Point, b: Point, c: Point)
    ensures
        inside_triangle(xn, xd, yn, yd, b, c, a) == inside_triangle(xn, xd, yn, yd, a, b, c),
        inside_triangle(xn, xd, yn, yd, c, a, b) == inside_triangle(xn, xd, yn, yd, a, b, c),
        inside_triangle(xn, xd, yn, yd, b, a, c) == inside_triangle(xn, xd, yn, yd, a, b, c),
        inside_triangle(xn, xd, yn, yd, a, c, b) == inside_triangle(xn, xd, yn, yd, a, b, c),
        inside_triangle(xn, xd, yn, yd, c, b, a) == inside_triangle(xn, xd, yn, yd, a, b, c),
{
    let p = sample(xn, yn);
    let a1 = stretch(a, xd, yd);
    let b1 = stretch(b, xd, yd);
    let c1 = stretch(c, xd, yd);
    lemma_doubled_area_symmetric(a1, b1, c1);
    lemma_doubled_area_symmetric(p, b1, c1);
    lemma_doubled_area_symmetric(p, c1, a1);
    lemma_doubled_area_symmetric(p, a1, b1);
}

/// Filling a triangle paints the same pixels whatever the order in which its
/// vertices are given.
pub proof fn lemma_triangle_covers_symmetric(width: int, height: int, a: Point, b: Point, c: Point, col: int, row: int)
    ensures
        triangle_covers(width, height, b, c, a, col, row) == triangle_covers(width, height, a, b, c, col, row),
        triangle_covers(width, height, c, a, b, col, row) == triangle_covers(width, height, a, b, c, col, row),
        triangle_covers(width, height, b, a, c, col, row) == triangle_covers(width, height, a, b, c, col, row),
        triangle_covers(width, height, a, c, b, col, row) == triangle_covers(width, height, a, b, c, col, row),
        triangle_covers(width, height, c, b, a, col, row) == triangle_covers(width, height, a, b, c, col, row),
{
    lemma_doubled_area_symmetric(a, b, c);
    lemma_inside_triangle_symmetric(col, width, row, height, a, b, c);
}

/// A triangle whose first and last vertex, or first two vertices, coincide
/// has no area.
pub proof fn lemma_cross_repeated(p: Point, q: Point)
    ensures
        cross(p, q, p) == 0,
        cross(p, p, q) == 0,
        cross(q, p, p) == 0,
{
    assert(p.x * (q.y - p.y) + q.x * (p.y - p.y) + p.x * (p.y - q.y) == 0) by (nonlinear_arith);
    assert(p.x * (p.y - q.y) + p.x * (q.y - p.y) + q.x * (p.y - p.y) == 0) by (nonlinear_arith);
    assert(q.x * (p.y - p.y) + p.x * (p.y - q.y) + p.x * (q.y - p.y) == 0) by (nonlinear_arith);
}

/// A point that coincides with a vertex of a triangle belongs to it.
pub proof fn lemma_vertex_inside(xn: int, xd: int, yn: int, yd: int, a: Point, b: Point, c: Point)
    requires
        xd > 0,
        yd > 0,
        xn * UNIT == a.x * xd,
        yn * UNIT == a.y * yd,
    ensures
        inside_triangle(xn, xd, yn, yd, a, b, c),
        inside_triangle(xn, xd, yn, yd, b, a, c),
        inside_triangle(xn, xd, yn, yd, b, c, a),
{
    let p = sample(xn, yn);
    let a1 = stretch(a, xd, yd);
    let b1 = stretch(b, xd, yd);
    let c1 = stretch(c, xd, yd);
    assert(p == a1);
    lemma_cross_repeated(a1, c1);
    lemma_cross_repeated(a1, b1);
    assert(doubled_area(p, b1, c1) == doubled_area(a1, b1, c1));
    assert(doubled_area(p, c1, a1) == 0);
    assert(doubled_area(p, a1, b1) == 0);
    assert(0 < (xd * UNIT) * (yd * UNIT)) by (nonlinear_arith)
        requires
            xd > 0,
            yd > 0,
            UNIT > 0,
    ;
    lemma_inside_triangle_symmetric(xn, xd, yn, yd, a, b, c);
}

/// Each vertex of a triangle belongs to it.
pub proof fn lemma_vertices_in_triangle(a: Point, b: Point, c: Point)
    ensures
        in_triangle(a, a, b, c),
        in_triangle(b, a, b, c),
        in_triangle(c, a, b, c),
{
    lemma_vertex_inside(a.x, UNIT as int, a.y, UNIT as int, a, b, c);
    lemma_vertex_inside(b.x, UNIT as int, b.y, UNIT as int, b, c, a);
    lemma_vertex_inside(c.x, UNIT as int, c.y, UNIT as int, c, a, b);
    lemma_inside_triangle_symmetric(b.x, UNIT as int, b.y, UNIT as int, a, b, c);
    lemma_inside_triangle_symmetric(c.x, UNIT as int, c.y, UNIT as int, a, b, c);
}

/// The signed area of a triangle is three times that of the triangle which
/// its centroid makes with any of its sides.
proof fn lemma_cross_centroid(g: Point, a: Point, b: Point, c: Point)
    requires
        3 * g.x == a.x + b.x + c.x,
        3 * g.y == a.y + b.y + c.y,
    ensures
        3 * cross(g, b, c) == cross(a, b, c),
        3 * cross(g, c, a) == cross(a, b, c),
        3 * cross(g, a, b) == cross(a, b, c),
{
    assert(3 * cross(g, b, c) == cross(a, b, c)) by (nonlinear_arith)
        requires
            3 * g.x == a.x + b.x + c.x,
            3 * g.y == a.y + b.y + c.y,
            cross(a, b, c) == a.x * (b.y - c.y) + b.x * (c.y - a.y) + c.x * (a.y - b.y),
            cross(g, b, c) == g.x * (b.y - c.y) + b.x * (c.y - g.y) + c.x * (g.y - b.y),
    ;
    assert(3 * cross(g, c, a) == cross(a, b, c)) by (nonlinear_arith)
        requires
            3 * g.x == a.x + b.x + c.x,
            3 * g.y == a.y + b.y + c.y,
            cross(a, b, c) == a.x * (b.y - c.y) + b.x * (c.y - a.y) + c.x * (a.y - b.y),
            cross(g, c, a) == g.x * (c.y - a.y) + c.x * (a.y - g.y) + a.x * (g.y - c.y),
    ;
    assert(3 * cross(g, a, b) == cross(a, b, c)) by (nonlinear_arith)
        requires
            3 * g.x == a.x + b.x + c.x,
            3 * g.y == a.y + b.y + c.y,
            cross(a, b, c) == a.x * (b.y - c.y) + b.x * (c.y - a.y) + c.x * (a.y - b.y),
            cross(g, a, b) == g.x * (a.y - b.y) + a.x * (b.y - g.y) + b.x * (g.y - a.y),
    ;
}

/// The centroid of a triangle belongs to it: the point `(xn / xd, yn / yd)`
/// whose coordinates are a third of the sum of the vertices' coordinates.
pub proof fn lemma_centroid_inside(xn: int, xd: int, yn: int, yd: int, a: Point, b: Point, c: Point)
    requires
        xd > 0,
        yd > 0,
        3 * (xn * UNIT) == (a.x + b.x + c.x) * xd,
        3 * (yn * UNIT) == (a.y + b.y + c.y) * yd,
    ensures
        inside_triangle(xn, xd, yn, yd, a, b, c),
{
    let p = sample(xn, yn);
    let a1 = stretch(a, xd, yd);
    let b1 = stretch(b, xd, yd);
    let c1 = stretch(c, xd, yd);
    assert((a.x + b.x + c.x) * xd == a.x * xd + b.x * xd + c.x * xd) by (nonlinear_arith);
    assert((a.y + b.y + c.y) * yd == a.y * yd + b.y * yd + c.y * yd) by (nonlinear_arith);
    lemma_cross_centroid(p, a1, b1, c1);
    assert(0 < (xd * UNIT) * (yd * UNIT)) by (nonlinear_arith)
        requires
            xd > 0,
            yd > 0,
            UNIT > 0,
    ;
}

/// Whether the three points `p`, `q`, `r` are the points `a`, `b`, `c` in
/// some order.
pub open spec fn same_vertices(a: Point, b: Point, c: Point, p: Point, q: Point, r: Point) -> bool {
    ||| (p == a && q == b && r == c)
    ||| (p == a && q == c && r == b)
    ||| (p == b && q == a && r == c)
    ||| (p == b && q == c && r == a)
    ||| (p == c && q == a && r == b)
    ||| (p == c && q == b && r == a)
}

/// The disc paints the pixel on which its centre stands, whatever its
/// radius, as long as that is more than nothing.
pub proof fn lemma_disc_covers_centre(width: int, height: int, center: Point, radius: int, col: int, row: int)
    requires
        radius > 0,
        center.x * width == col * UNIT,
        center.y * height == row * UNIT,
    ensures
        disc_covers(width, height, center, radius, col, row),
{
    assert(radius * radius > 0) by (nonlinear_arith)
        requires
            radius > 0,
    ;
}

/// The disc is open: of a pixel whose distance to the centre is `d`, it
/// paints the one with `d` less than the radius and not the one with `d`
/// equal to the radius or more.
pub proof fn lemma_disc_is_open(width: int, height: int, center: Point, radius: int, col: int, row: int, d: int)
    requires
        0 <= radius,
        0 <= d,
        d * d == (Point { x: center.x * width, y: center.y * height }).dist_sq(
            Point { x: col * UNIT, y: row * UNIT },
        ),
    ensures
        disc_covers(width, height, center, radius, col, row) <==> d < radius,
{
    if d < radius {
        assert(d * d < radius * radius) by (nonlinear_arith)
            requires
                0 <= d < radius,
        ;
    } else {
        assert(d * d >= radius * radius) by (nonlinear_arith)
            requires
                0 <= radius <= d,
        ;
    }
}


/// Whether the three offsets `k1`, `k2`, `k3` all lie between `lo` and `hi`,
/// with `lo` above zero.
pub open spec fn beyond(lo: int, hi: int, k1: int, k2: int, k3: int) -> bool {
    &&& 0 < lo
    &&& lo <= k1 <= hi
    &&& lo <= k2 <= hi
    &&& lo <= k3 <= hi
}

/// The signed area of a triangle as a sum of products of coordinates.
proof fn lemma_cross_expanded(p: Point, q: Point, r: Point)
    ensures
        cross(p, q, r) == p.x * q.y - p.x * r.y + q.x * r.y - q.x * p.y + r.x * p.y - r.x * q.y,
{
    assert(p.x * (q.y - r.y) == p.x * q.y - p.x * r.y) by (nonlinear_arith);
    assert(q.x * (r.y - p.y) == q.x * r.y - q.x * p.y) by (nonlinear_arith);
    assert(r.x * (p.y - q.y) == r.x * p.y - r.x * q.y) by (nonlinear_arith);
}

/// The three triangles that a point `p` makes with the sides of `abc` have,
/// counted with their signs, the area of `abc`; and weighted each by the
/// offset from `p`, across or down, of the vertex opposite its side, they
/// cancel.
pub proof fn lemma_cross_weighted(p: Point, a: Point, b: Point, c: Point)
    ensures
        cross(p, b, c) + cross(p, c, a) + cross(p, a, b) == cross(a, b, c),
        (a.x - p.x) * cross(p, b, c) + (b.x - p.x) * cross(p, c, a) + (c.x - p.x) * cross(p, a, b) == 0,
        (a.y - p.y) * cross(p, b, c) + (b.y - p.y) * cross(p, c, a) + (c.y - p.y) * cross(p, a, b) == 0,
{
    let ua = a.x - p.x;
    let ub = b.x - p.x;
    let uc = c.x - p.x;
    let va = a.y - p.y;
    let vb = b.y - p.y;
    let vc = c.y - p.y;
    let t1 = ub * vc - uc * vb;
    let t2 = uc * va - ua * vc;
    let t3 = ua * vb - ub * va;
    assert(cross(p, b, c) == t1) by (nonlinear_arith)
        requires
            cross(p, b, c) == p.x * (b.y - c.y) + b.x * (c.y - p.y) + c.x * (p.y - b.y),
            t1 == (b.x - p.x) * (c.y - p.y) - (c.x - p.x) * (b.y - p.y),
    ;
    assert(cross(p, c, a) == t2) by (nonlinear_arith)
        requires
            cross(p, c, a) == p.x * (c.y - a.y) + c.x * (a.y - p.y) + a.x * (p.y - c.y),
            t2 == (c.x - p.x) * (a.y - p.y) - (a.x - p.x) * (c.y - p.y),
    ;
    assert(cross(p, a, b) == t3) by (nonlinear_arith)
        requires
            cross(p, a, b) == p.x * (a.y - b.y) + a.x * (b.y - p.y) + b.x * (p.y - a.y),
            t3 == (a.x - p.x) * (b.y - p.y) - (b.x - p.x) * (a.y - p.y),
    ;
    lemma_cross_expanded(p, b, c);
    lemma_cross_expanded(p, c, a);
    lemma_cross_expanded(p, a, b);
    lemma_cross_expanded(a, b, c);
    assert(t1 + t2 + t3 == cross(a, b, c));
    assert(ua * t1 + ub * t2 + uc * t3 == 0) by (nonlinear_arith)
        requires
            t1 == ub * vc - uc * vb,
            t2 == uc * va - ua * vc,
            t3 == ua * vb - ub * va,
    ;
    assert(va * t1 + vb * t2 + vc * t3 == 0) by (nonlinear_arith)
        requires
            t1 == ub * vc - uc * vb,
            t2 == uc * va - ua * vc,
            t3 == ua * vb - ub * va,
    ;
}

/// Three numbers whose weighted sum is nothing, with weights between `d` and
/// `u`, partly cancel: their magnitudes exceed the magnitude of their sum by
/// at least `2 * d / (u - d)` times that magnitude.
pub proof fn lemma_weighted_excess(t1: int, t2: int, t3: int, w1: int, w2: int, w3: int, d: int, u: int)
    requires
        w1 * t1 + w2 * t2 + w3 * t3 == 0,
        beyond(d, u, w1, w2, w3),
    ensures
        (u - d) * (magnitude(t1) + magnitude(t2) + magnitude(t3) - magnitude(t1 + t2 + t3)) >= 2 * d
            * magnitude(t1 + t2 + t3),
{
    let p1 = if t1 > 0 { t1 } else { 0 };
    let p2 = if t2 > 0 { t2 } else { 0 };
    let p3 = if t3 > 0 { t3 } else { 0 };
    let n1 = if t1 < 0 { -t1 } else { 0 };
    let n2 = if t2 < 0 { -t2 } else { 0 };
    let n3 = if t3 < 0 { -t3 } else { 0 };
    let up = p1 + p2 + p3;
    let down = n1 + n2 + n3;
    lemma_weight_bounds(w1, p1, d, u);
    lemma_weight_bounds(w2, p2, d, u);
    lemma_weight_bounds(w3, p3, d, u);
    lemma_weight_bounds(w1, n1, d, u);
    lemma_weight_bounds(w2, n2, d, u);
    lemma_weight_bounds(w3, n3, d, u);
    assert(w1 * t1 == w1 * p1 - w1 * n1) by (nonlinear_arith)
        requires
            t1 == p1 - n1,
    ;
    assert(w2 * t2 == w2 * p2 - w2 * n2) by (nonlinear_arith)
        requires
            t2 == p2 - n2,
    ;
    assert(w3 * t3 == w3 * p3 - w3 * n3) by (nonlinear_arith)
        requires
            t3 == p3 - n3,
    ;
    let s = w1 * p1 + w2 * p2 + w3 * p3;
    assert(s == w1 * n1 + w2 * n2 + w3 * n3);
    assert(d * up == d * p1 + d * p2 + d * p3) by (nonlinear_arith)
        requires
            up == p1 + p2 + p3,
    ;
    assert(u * up == u * p1 + u * p2 + u * p3) by (nonlinear_arith)
        requires
            up == p1 + p2 + p3,
    ;
    assert(d * down == d * n1 + d * n2 + d * n3) by (nonlinear_arith)
        requires
            down == n1 + n2 + n3,
    ;
    assert(u * down == u * n1 + u * n2 + u * n3) by (nonlinear_arith)
        requires
            down == n1 + n2 + n3,
    ;
    assert(d * up <= s <= u * up);
    assert(d * down <= s <= u * down);
    let sum = t1 + t2 + t3;
    assert(sum == up - down);
    let excess = magnitude(t1) + magnitude(t2) + magnitude(t3) - magnitude(sum);
    assert(magnitude(t1) + magnitude(t2) + magnitude(t3) == up + down);
    if up >= down {
        assert(excess == 2 * down);
        assert((u - d) * (2 * down) >= 2 * d * (up - down)) by (nonlinear_arith)
            requires
                d * up <= u * down,
        ;
    } else {
        assert(excess == 2 * up);
        assert((u - d) * (2 * up) >= 2 * d * (down - up)) by (nonlinear_arith)
            requires
                d * down <= u * up,
        ;
    }
}

/// A weight between `d` and `u` carries a number that is not below zero to
/// between `d` and `u` times that number.
proof fn lemma_weight_bounds(w: int, t: int, d: int, u: int)
    requires
        d <= w <= u,
        0 <= t,
    ensures
        d * t <= w * t <= u * t,
{
    assert(d * t <= w * t) by (nonlinear_arith)
        requires
            d <= w,
            0 <= t,
    ;
    assert(w * t <= u * t) by (nonlinear_arith)
        requires
            w <= u,
            0 <= t,
    ;
}

/// A point that lies beyond all three vertices of a triangle with area, on
/// one side across or down, is outside it as soon as it is far enough: where
/// each vertex is at least `d` and at most `u` away on that axis, in the
/// lattice of the point, and `d / (u - d)` times the area of the triangle
/// reaches the tolerance.
pub proof fn lemma_beyond_vertices_outside(
    xn: int,
    xd: int,
    yn: int,
    yd: int,
    a: Point,
    b: Point,
    c: Point,
    d: int,
    u: int,
)
    requires
        ({
            let p = sample(xn, yn);
            let a1 = stretch(a, xd, yd);
            let b1 = stretch(b, xd, yd);
            let c1 = stretch(c, xd, yd);
            &&& doubled_area(a1, b1, c1) > 0
            &&& 2 * d * doubled_area(a1, b1, c1) * TOLERANCE_INVERSE >= 2 * ((xd * UNIT) * (yd * UNIT))
                * (u - d)
            &&& (beyond(d, u, a1.x - p.x, b1.x - p.x, c1.x - p.x) || beyond(
                d,
                u,
                p.x - a1.x,
                p.x - b1.x,
                p.x - c1.x,
            ) || beyond(d, u, a1.y - p.y, b1.y - p.y, c1.y - p.y) || beyond(
                d,
                u,
                p.y - a1.y,
                p.y - b1.y,
                p.y - c1.y,
            ))
        }),
    ensures
        !inside_triangle(xn, xd, yn, yd, a, b, c),
{
    let p = sample(xn, yn);
    let a1 = stretch(a, xd, yd);
    let b1 = stretch(b, xd, yd);
    let c1 = stretch(c, xd, yd);
    let t1 = cross(p, b1, c1);
    let t2 = cross(p, c1, a1);
    let t3 = cross(p, a1, b1);
    lemma_cross_weighted(p, a1, b1, c1);
    if beyond(d, u, a1.x - p.x, b1.x - p.x, c1.x - p.x) {
        lemma_weighted_excess(t1, t2, t3, a1.x - p.x, b1.x - p.x, c1.x - p.x, d, u);
    } else if beyond(d, u, p.x - a1.x, p.x - b1.x, p.x - c1.x) {
        assert((p.x - a1.x) * t1 + (p.x - b1.x) * t2 + (p.x - c1.x) * t3 == -((a1.x - p.x) * t1 + (b1.x
            - p.x) * t2 + (c1.x - p.x) * t3)) by (nonlinear_arith);
        lemma_weighted_excess(t1, t2, t3, p.x - a1.x, p.x - b1.x, p.x - c1.x, d, u);
    } else if beyond(d, u, a1.y - p.y, b1.y - p.y, c1.y - p.y) {
        lemma_weighted_excess(t1, t2, t3, a1.y - p.y, b1.y - p.y, c1.y - p.y, d, u);
    } else {
        assert((p.y - a1.y) * t1 + (p.y - b1.y) * t2 + (p.y - c1.y) * t3 == -((a1.y - p.y) * t1 + (b1.y
            - p.y) * t2 + (c1.y - p.y) * t3)) by (nonlinear_arith);
        lemma_weighted_excess(t1, t2, t3, p.y - a1.y, p.y - b1.y, p.y - c1.y, d, u);
    }
    let whole = doubled_area(a1, b1, c1);
    let parts = doubled_area(p, b1, c1) + doubled_area(p, c1, a1) + doubled_area(p, a1, b1);
    let excess = parts - whole;
    let bound = 2 * ((xd * UNIT) * (yd * UNIT));
    assert((u - d) * excess >= 2 * d * whole);
    assert(excess >= 0);
    assert(magnitude(whole - parts) == excess);
    if excess * TOLERANCE_INVERSE < bound {
        assert(2 * d * whole > 0) by (nonlinear_arith)
            requires
                d > 0,
                whole > 0,
        ;
        assert(u - d > 0) by (nonlinear_arith)
            requires
                (u - d) * excess >= 2 * d * whole,
                2 * d * whole > 0,
                excess >= 0,
                u - d >= 0,
        ;
        assert(false) by (nonlinear_arith)
            requires
                u - d > 0,
                excess * TOLERANCE_INVERSE < bound,
                (u - d) * excess >= 2 * d * whole,
                2 * d * whole * TOLERANCE_INVERSE >= bound * (u - d),
        ;
    }
}

/// Stretching the plane carries the signed area of a triangle with it.
pub proof fn lemma_cross_stretched(p: Point, q: Point, r: Point, xd: int, yd: int)
    ensures
        cross(stretch(p, xd, yd), stretch(q, xd, yd), stretch(r, xd, yd)) == (xd * yd) * cross(p, q, r),
{
    assert((p.x * xd) * (q.y * yd - r.y * yd) == (xd * yd) * (p.x * (q.y - r.y))) by (nonlinear_arith);
    assert((q.x * xd) * (r.y * yd - p.y * yd) == (xd * yd) * (q.x * (r.y - p.y))) by (nonlinear_arith);
    assert((r.x * xd) * (p.y * yd - q.y * yd) == (xd * yd) * (r.x * (p.y - q.y))) by (nonlinear_arith);
    assert((xd * yd) * (p.x * (q.y - r.y) + q.x * (r.y - p.y) + r.x * (p.y - q.y)) == (xd * yd) * (p.x
        * (q.y - r.y)) + (xd * yd) * (q.x * (r.y - p.y)) + (xd * yd) * (r.x * (p.y - q.y)))
        by (nonlinear_arith);
}

/// Whether `p` lies a tenth of the unit or more beyond all three vertices,
/// on one side across or down.
pub open spec fn a_tenth_beyond(p: Point, a: Point, b: Point, c: Point) -> bool {
    ||| (10 * (a.x - p.x) >= UNIT && 10 * (b.x - p.x) >= UNIT && 10 * (c.x - p.x) >= UNIT)
    ||| (10 * (p.x - a.x) >= UNIT && 10 * (p.x - b.x) >= UNIT && 10 * (p.x - c.x) >= UNIT)
    ||| (10 * (a.y - p.y) >= UNIT && 10 * (b.y - p.y) >= UNIT && 10 * (c.y - p.y) >= UNIT)
    ||| (10 * (p.y - a.y) >= UNIT && 10 * (p.y - b.y) >= UNIT && 10 * (p.y - c.y) >= UNIT)
}

/// A point of the unit square that lies a tenth of the unit or more outside
/// the bounding box of a triangle, across or down, is outside the triangle,
/// for every triangle of the unit square with an area of a twentieth of the
/// square or more.
pub proof fn lemma_far_point_outside(p: Point, a: Point, b: Point, c: Point)
    requires
        p.in_unit_square(),
        a.in_unit_square(),
        b.in_unit_square(),
        c.in_unit_square(),
        10 * doubled_area(a, b, c) >= UNIT * UNIT,
        a_tenth_beyond(p, a, b, c),
    ensures
        !in_triangle(p, a, b, c),
{
    let unit = UNIT as int;
    let a1 = stretch(a, unit, unit);
    let b1 = stretch(b, unit, unit);
    let c1 = stretch(c, unit, unit);
    lemma_cross_stretched(a, b, c, unit, unit);
    let whole = doubled_area(a1, b1, c1);
    assert(unit * unit == 281_474_976_710_656) by (nonlinear_arith)
        requires
            unit == 16_777_216,
    ;
    assert(whole == 281_474_976_710_656 * doubled_area(a, b, c));
    let d = 1_677_722 * unit;
    let u = unit * unit;
    assert((unit * unit) * (unit * unit) == 79_228_162_514_264_337_593_543_950_336) by (nonlinear_arith)
        requires
            unit == 16_777_216,
    ;
    lemma_beyond_vertices_outside(p.x, unit, p.y, unit, a, b, c, d, u);
}


} // verus!
