use vstd::prelude::*;
use crate::color::Color;
use crate::geometry::{
    disc_covers, doubled_area, in_triangle, inside_triangle, lemma_triangle_covers_symmetric,
    max3, min3, same_vertices, to_pixel, triangle_covers, TOLERANCE_INVERSE,
};
use crate::image::{lemma_get_after_put, Canvas, Image};
use crate::point::{Point, NDC, UNIT};

verus! {

/// The largest product of a horizontal and a vertical coordinate of the
/// lattice in which areas are computed, two to the power 112.
const AREA_MAX: i128 = 0x1_0000_0000_0000_0000_0000_0000_0000;

/// Twice the area of the triangle `pqr`, whose horizontal coordinates are at
/// most `xmax` and whose vertical coordinates are at most `ymax`.
fn doubled_area_of(
    px: i128,
    py: i128,
    qx: i128,
    qy: i128,
    rx: i128,
    ry: i128,
    Ghost(xmax): Ghost<int>,
    Ghost(ymax): Ghost<int>,
) -> (v: i128)
    requires
        0 <= px <= xmax,
        0 <= qx <= xmax,
        0 <= rx <= xmax,
        0 <= py <= ymax,
        0 <= qy <= ymax,
        0 <= ry <= ymax,
        xmax * ymax <= AREA_MAX,
    ensures
        v == doubled_area(
            Point { x: px as int, y: py as int },
            Point { x: qx as int, y: qy as int },
            Point { x: rx as int, y: ry as int },
        ),
        0 <= v <= 3 * AREA_MAX,
{
    proof {
        lemma_product_bound(px as int, qy - ry, xmax, ymax);
        lemma_product_bound(qx as int, ry - py, xmax, ymax);
        lemma_product_bound(rx as int, py - qy, xmax, ymax);
    }
    let s: i128 = px * (qy - ry) + qx * (ry - py) + rx * (py - qy);
    if s >= 0 {
        s
    } else {
        -s
    }
}

/// A product is bounded by the product of the bounds of its factors.
proof fn lemma_product_bound(x: int, d: int, xmax: int, ymax: int)
    requires
        0 <= x <= xmax,
        -ymax <= d <= ymax,
    ensures
        -(xmax * ymax) <= x * d <= xmax * ymax,
{
    assert(x * d <= xmax * ymax) by (nonlinear_arith)
        requires
            0 <= x <= xmax,
            d <= ymax,
            0 <= ymax,
    ;
    assert(-(xmax * ymax) <= x * d) by (nonlinear_arith)
        requires
            0 <= x <= xmax,
            -ymax <= d,
            0 <= ymax,
    ;
}

/// Whether the point `(xn / xd, yn / yd)` belongs to the triangle `abc`,
/// for numbers of which the horizontal ones are at most `xm` and the vertical
/// ones at most `ym`.
fn sample_in_triangle(
    xn: u64,
    xd: u64,
    yn: u64,
    yd: u64,
    a: NDC,
    b: NDC,
    c: NDC,
    Ghost(xm): Ghost<int>,
    Ghost(ym): Ghost<int>,
) -> (r: bool)
    requires
        0 < xd <= xm,
        0 < yd <= ym,
        xn <= xm,
        yn <= ym,
        xm * ym <= 0x1_0000_0000_0000_0000,
    ensures
        r == inside_triangle(xn as int, xd as int, yn as int, yd as int, a@, b@, c@),
{
    let ghost xmax = 16_777_216 * xm;
    let ghost ymax = 16_777_216 * ym;
    assert(xmax * ymax <= AREA_MAX) by (nonlinear_arith)
        requires
            xmax == 16_777_216 * xm,
            ymax == 16_777_216 * ym,
            xm * ym <= 0x1_0000_0000_0000_0000,
            AREA_MAX == 0x1_0000_0000_0000_0000_0000_0000_0000,
    ;
    let px: i128 = xn as i128 * 16_777_216;
    let py: i128 = yn as i128 * 16_777_216;
    let (ax, ay) = stretched(a, xd, yd);
    let (bx, by) = stretched(b, xd, yd);
    let (cx, cy) = stretched(c, xd, yd);
    let whole: i128 = doubled_area_of(ax, ay, bx, by, cx, cy, Ghost(xmax), Ghost(ymax));
    let first: i128 = doubled_area_of(px, py, bx, by, cx, cy, Ghost(xmax), Ghost(ymax));
    let second: i128 = doubled_area_of(px, py, cx, cy, ax, ay, Ghost(xmax), Ghost(ymax));
    let third: i128 = doubled_area_of(px, py, ax, ay, bx, by, Ghost(xmax), Ghost(ymax));
    let parts: i128 = first + second + third;
    let diff: i128 = if whole >= parts {
        whole - parts
    } else {
        parts - whole
    };
    let sx: i128 = xd as i128 * 16_777_216;
    let sy: i128 = yd as i128 * 16_777_216;
    assert(0 < sx * sy <= xmax * ymax) by (nonlinear_arith)
        requires
            0 < sx <= xmax,
            0 < sy <= ymax,
    ;
    let bound: i128 = 2 * (sx * sy);
    diff <= (bound - 1) / (TOLERANCE_INVERSE as i128)
}

/// The coordinates of `v` in the lattice of a point with denominators `xd`
/// and `yd`.
fn stretched(v: NDC, xd: u64, yd: u64) -> (s: (i128, i128))
    ensures
        s.0 == v@.x * xd,
        s.1 == v@.y * yd,
        0 <= s.0 <= 16_777_216 * xd,
        0 <= s.1 <= 16_777_216 * yd,
{
    let x: i128 = v.x() as i128;
    let y: i128 = v.y() as i128;
    assert(0 <= x * xd <= 16_777_216 * xd) by (nonlinear_arith)
        requires
            0 <= x <= 16_777_216,
            0 <= xd,
    ;
    assert(0 <= y * yd <= 16_777_216 * yd) by (nonlinear_arith)
        requires
            0 <= y <= 16_777_216,
            0 <= yd,
    ;
    (x * (xd as i128), y * (yd as i128))
}

/// Whether the point `(xn / xd, yn / yd)` belongs to the triangle `abc`.
pub fn is_sample_in_triangle(xn: u32, xd: u32, yn: u32, yd: u32, a: NDC, b: NDC, c: NDC) -> (r: bool)
    requires
        xd > 0,
        yd > 0,
    ensures
        r == inside_triangle(xn as int, xd as int, yn as int, yd as int, a@, b@, c@),
{
    sample_in_triangle(
        xn as u64,
        xd as u64,
        yn as u64,
        yd as u64,
        a,
        b,
        c,
        Ghost(0x1_0000_0000),
        Ghost(0x1_0000_0000),
    )
}

/// Whether the point `p` belongs to the triangle `abc`, its boundary
/// included.
pub fn is_point_in_triangle(p: NDC, a: NDC, b: NDC, c: NDC) -> (r: bool)
    ensures
        r == in_triangle(p@, a@, b@, c@),
{
    is_sample_in_triangle(p.x(), UNIT, p.y(), UNIT, a, b, c)
}

/// Whether `now` is `before` with `color` on the covered cells among those
/// of the columns left of `x` and of column `x` above row `y`, and with every
/// other cell as it was.
spec fn painted_upto(
    before: Canvas,
    now: Canvas,
    color: Color,
    covers: spec_fn(int, int) -> bool,
    x: int,
    y: int,
) -> bool {
    &&& now.wf()
    &&& now.width == before.width
    &&& now.height == before.height
    &&& forall|col: int, row: int|
        before.contains(col, row) ==> #[trigger] now.at(col, row) == (if (col < x || (col == x
            && row < y)) && covers(col, row) {
            color
        } else {
            before.at(col, row)
        })
}

/// Whether `now` is `before` with `color` on every covered cell and with
/// every other cell as it was.
pub open spec fn painted(before: Canvas, now: Canvas, color: Color, covers: spec_fn(int, int) -> bool) -> bool {
    &&& now.wf()
    &&& now.width == before.width
    &&& now.height == before.height
    &&& forall|col: int, row: int|
        before.contains(col, row) ==> #[trigger] now.at(col, row) == (if covers(col, row) {
            color
        } else {
            before.at(col, row)
        })
}

/// Deciding one more cell of a column carries the painting one row on.
proof fn lemma_paint_cell(
    before: Canvas,
    now: Canvas,
    next: Canvas,
    color: Color,
    covers: spec_fn(int, int) -> bool,
    x: int,
    y: int,
)
    requires
        before.wf(),
        painted_upto(before, now, color, covers, x, y),
        before.contains(x, y),
        next == (if covers(x, y) {
            now.put(x, y, color)
        } else {
            now
        }),
    ensures
        painted_upto(before, next, color, covers, x, y + 1),
{
    assert forall|col: int, row: int| before.contains(col, row) implies #[trigger] next.at(col, row)
        == (if (col < x || (col == x && row < y + 1)) && covers(col, row) {
        color
    } else {
        before.at(col, row)
    }) by {
        lemma_get_after_put(now, x, y, color, col, row);
        assert(now.at(col, row) == (if (col < x || (col == x && row < y)) && covers(col, row) {
            color
        } else {
            before.at(col, row)
        }));
    }
    lemma_get_after_put(now, x, y, color, x, y);
}

/// The least of three coordinates.
fn least(a: u32, b: u32, c: u32) -> (m: u32)
    ensures
        m == min3(a as int, b as int, c as int),
{
    if a <= b && a <= c {
        a
    } else if b <= c {
        b
    } else {
        c
    }
}

/// The greatest of three coordinates.
fn greatest(a: u32, b: u32, c: u32) -> (m: u32)
    ensures
        m == max3(a as int, b as int, c as int),
{
    if a >= b && a >= c {
        a
    } else if b >= c {
        b
    } else {
        c
    }
}

/// The pixel index of the unit-square coordinate `v` on an axis of `dim`
/// pixels.
fn pixel_index(v: u32, dim: usize) -> (i: usize)
    requires
        v <= UNIT,
    ensures
        i == to_pixel(v as int, dim as int),
        i <= dim,
{
    assert(0 <= v * dim <= 16_777_216 * dim) by (nonlinear_arith)
        requires
            0 <= v <= 16_777_216,
            0 <= dim,
    ;
    ((v as u128 * dim as u128) / 16_777_216) as usize
}

/// Whether the three points lie on one line, so that they span no area.
fn has_no_area(a: NDC, b: NDC, c: NDC) -> (r: bool)
    ensures
        r == (doubled_area(a@, b@, c@) == 0),
{
    let (ax, ay) = stretched(a, 1, 1);
    let (bx, by) = stretched(b, 1, 1);
    let (cx, cy) = stretched(c, 1, 1);
    doubled_area_of(ax, ay, bx, by, cx, cy, Ghost(16_777_216), Ghost(16_777_216)) == 0
}

/// Fills the triangle `abc` with `color`. Of the box spanned by the pixel
/// indices of the least and the greatest coordinate of the vertices, both
/// ends included, every pixel of the canvas whose point
/// `(col / width, row / height)` belongs to the triangle is painted; a vertex
/// on the far edge of the unit square reaches one index past the canvas, where
/// there is nothing to paint. Every other pixel stays as it was, and so does
/// the whole canvas where the three vertices lie on one line.
pub fn triangle(img: &mut Image, color: Color, a: NDC, b: NDC, c: NDC)
    requires
        old(img)@.wf(),
    ensures
        painted(
            old(img)@,
            final(img)@,
            color,
            |col: int, row: int|
                triangle_covers(old(img)@.width as int, old(img)@.height as int, a@, b@, c@, col, row),
        ),
{
    let ghost before = img@;
    let width: usize = img.width();
    let height: usize = img.height();
    let ghost covers = |col: int, row: int|
        triangle_covers(width as int, height as int, a@, b@, c@, col, row);
    if has_no_area(a, b, c) {
        assert(painted(before, img@, color, covers));
        return ;
    }
    let x_min: usize = pixel_index(least(a.x(), b.x(), c.x()), width);
    let x_max: usize = pixel_index(greatest(a.x(), b.x(), c.x()), width);
    let y_min: usize = pixel_index(least(a.y(), b.y(), c.y()), height);
    let y_max: usize = pixel_index(greatest(a.y(), b.y(), c.y()), height);
    let mut x: usize = x_min;
    while x <= x_max && x < width
        invariant
            doubled_area(a@, b@, c@) > 0,
            before.wf(),
            before.width == width,
            before.height == height,
            width * height <= usize::MAX,
            x_min == to_pixel(min3(a@.x, b@.x, c@.x), width as int),
            x_max == to_pixel(max3(a@.x, b@.x, c@.x), width as int),
            y_min == to_pixel(min3(a@.y, b@.y, c@.y), height as int),
            y_max == to_pixel(max3(a@.y, b@.y, c@.y), height as int),
            covers == |col: int, row: int|
                triangle_covers(width as int, height as int, a@, b@, c@, col, row),
            x_min <= x,
            painted_upto(before, img@, color, covers, x as int, 0),
        decreases width - x,
    {
        let mut y: usize = y_min;
        assert(painted_upto(before, img@, color, covers, x as int, y as int));
        while y <= y_max && y < height
            invariant
                doubled_area(a@, b@, c@) > 0,
                before.wf(),
                before.width == width,
                before.height == height,
                width * height <= usize::MAX,
                covers == |col: int, row: int|
                    triangle_covers(width as int, height as int, a@, b@, c@, col, row),
                x_min == to_pixel(min3(a@.x, b@.x, c@.x), width as int),
                x_max == to_pixel(max3(a@.x, b@.x, c@.x), width as int),
                y_min == to_pixel(min3(a@.y, b@.y, c@.y), height as int),
                y_max == to_pixel(max3(a@.y, b@.y, c@.y), height as int),
                x_min <= x <= x_max,
                x < width,
                y_min <= y,
                painted_upto(before, img@, color, covers, x as int, y as int),
            decreases height - y,
        {
            let ghost now = img@;
            let hit: bool = sample_in_triangle(
                x as u64,
                width as u64,
                y as u64,
                height as u64,
                a,
                b,
                c,
                Ghost(width as int),
                Ghost(height as int),
            );
            if hit {
                img.set_pixel(x, y, color);
            }
            proof {
                lemma_paint_cell(before, now, img@, color, covers, x as int, y as int);
            }
            y += 1;
        }
        assert(painted_upto(before, img@, color, covers, x as int + 1, 0));
        x += 1;
    }
    assert(painted(before, img@, color, covers));
}

/// A pixel that the disc covers lies, on each axis, less than the radius
/// from the centre.
proof fn lemma_disc_reach(c: int, p: int, d: int, radius: int)
    requires
        (p - c) * (p - c) + d * d < radius * radius,
        0 <= radius,
    ensures
        c - radius < p < c + radius,
{
    assert(d * d >= 0) by (nonlinear_arith);
    if p - c >= radius {
        assert((p - c) * (p - c) >= radius * radius) by (nonlinear_arith)
            requires
                p - c >= radius,
                radius >= 0,
        ;
    }
    if c - p >= radius {
        assert((p - c) * (p - c) >= radius * radius) by (nonlinear_arith)
            requires
                c - p >= radius,
                radius >= 0,
        ;
    }
}

/// The centre of a disc on one axis of `dim` pixels, in pixel space.
fn centre_on_axis(v: u32, dim: usize) -> (c: u128)
    requires
        v <= UNIT,
    ensures
        c == v * dim,
        c <= 16_777_216 * dim,
{
    assert(0 <= v * dim <= 16_777_216 * dim) by (nonlinear_arith)
        requires
            0 <= v <= 16_777_216,
            0 <= dim,
    ;
    v as u128 * dim as u128
}

/// The first pixel index of the box round a disc on one axis: that of the
/// centre less the radius, or zero where that lies before the canvas.
fn box_start(c: u128, radius: u64, dim: usize) -> (i: usize)
    requires
        c <= 16_777_216 * dim,
    ensures
        i == if c >= radius { (c - radius) / (UNIT as int) } else { 0 },
{
    if c >= radius as u128 {
        ((c - radius as u128) / 16_777_216) as usize
    } else {
        0
    }
}

/// The last pixel index of the box round a disc on one axis that falls on
/// the canvas: that of the centre plus the radius, or the last of the canvas
/// where that lies past it.
fn box_end(c: u128, radius: u64, dim: usize) -> (i: usize)
    requires
        dim > 0,
        c <= 16_777_216 * dim,
    ensures
        i == if (c + radius) / (UNIT as int) >= dim { dim - 1 } else { (c + radius) / (UNIT as int) },
{
    let end: u128 = (c + radius as u128) / 16_777_216;
    if end >= dim as u128 {
        dim - 1
    } else {
        end as usize
    }
}

/// The distance on one axis between the pixel index `i` and the centre `c`.
fn axis_gap(i: usize, c: u128, Ghost(dim): Ghost<int>) -> (d: u128)
    requires
        i < dim <= usize::MAX,
        c <= 16_777_216 * dim,
    ensures
        d == if i * UNIT >= c { i * UNIT - c } else { c - i * UNIT },
{
    let p: u128 = i as u128 * 16_777_216;
    if p >= c {
        p - c
    } else {
        c - p
    }
}

/// Whether the pixel `(x, y)` is less than `radius` away from the centre
/// `(cx, cy)` of pixel space.
fn disc_holds(cx: u128, cy: u128, x: usize, y: usize, radius: u64, Ghost(width): Ghost<int>, Ghost(height): Ghost<int>) -> (r: bool)
    requires
        x < width <= usize::MAX,
        y < height <= usize::MAX,
        cx <= 16_777_216 * width,
        cy <= 16_777_216 * height,
    ensures
        r == ((Point { x: cx as int, y: cy as int }).dist_sq(Point { x: x * UNIT, y: y * UNIT }) < radius
            * radius),
{
    let dx: u128 = axis_gap(x, cx, Ghost(width));
    let dy: u128 = axis_gap(y, cy, Ghost(height));
    let reach: u128 = radius as u128;
    assert(dx * dx == (x * UNIT - cx) * (x * UNIT - cx)) by (nonlinear_arith)
        requires
            dx == x * UNIT - cx || dx == cx - x * UNIT,
    ;
    assert(dy * dy == (y * UNIT - cy) * (y * UNIT - cy)) by (nonlinear_arith)
        requires
            dy == y * UNIT - cy || dy == cy - y * UNIT,
    ;
    assert(reach * reach <= 0xffff_ffff_ffff_ffff * 0xffff_ffff_ffff_ffff) by (nonlinear_arith)
        requires
            0 <= reach <= 0xffff_ffff_ffff_ffff,
    ;
    if dx >= reach || dy >= reach {
        proof {
            if dx >= reach {
                assert(dx * dx >= reach * reach) by (nonlinear_arith)
                    requires
                        dx >= reach >= 0,
                ;
                assert(dy * dy >= 0) by (nonlinear_arith);
            } else {
                assert(dy * dy >= reach * reach) by (nonlinear_arith)
                    requires
                        dy >= reach >= 0,
                ;
                assert(dx * dx >= 0) by (nonlinear_arith);
            }
        }
        false
    } else {
        assert(dx * dx <= reach * reach) by (nonlinear_arith)
            requires
                0 <= dx <= reach,
        ;
        assert(dy * dy <= reach * reach) by (nonlinear_arith)
            requires
                0 <= dy <= reach,
        ;
        dx * dx < reach * reach - dy * dy
    }
}

/// Fills the disc round `center` with `color`. The centre is a unit-square
/// point, carried to pixel space by the dimensions of the canvas; `radius` is
/// a length in pixels, in units of `1 / UNIT` of a pixel. A pixel of the
/// canvas is painted where its distance to the centre is less than the
/// radius, so a pixel at exactly the radius is not; every other pixel stays
/// as it was. The scan runs over the box of the pixel indices of the centre
/// less and plus the radius, which holds every such pixel.
pub fn circle(img: &mut Image, color: Color, center: NDC, radius: u64)
    requires
        old(img)@.wf(),
    ensures
        painted(
            old(img)@,
            final(img)@,
            color,
            |col: int, row: int|
                disc_covers(old(img)@.width as int, old(img)@.height as int, center@, radius as int, col, row),
        ),
{
    let ghost before = img@;
    let width: usize = img.width();
    let height: usize = img.height();
    let cx: u128 = centre_on_axis(center.x(), width);
    let cy: u128 = centre_on_axis(center.y(), height);
    let x_min: usize = box_start(cx, radius, width);
    let x_max: usize = box_end(cx, radius, width);
    let y_min: usize = box_start(cy, radius, height);
    let y_max: usize = box_end(cy, radius, height);
    let ghost covers = |col: int, row: int|
        disc_covers(width as int, height as int, center@, radius as int, col, row);
    assert forall|col: int, row: int| before.contains(col, row) && covers(col, row) implies x_min
        <= col <= x_max && y_min <= row <= y_max by {
        lemma_disc_reach(cx as int, col * UNIT, row * UNIT - cy, radius as int);
        lemma_disc_reach(cy as int, row * UNIT, col * UNIT - cx, radius as int);
    }
    let mut x: usize = x_min;
    while x <= x_max
        invariant
            before.wf(),
            before.width == width,
            before.height == height,
            cx == center@.x * width,
            cy == center@.y * height,
            cx <= 16_777_216 * width,
            cy <= 16_777_216 * height,
            covers == |col: int, row: int|
                disc_covers(width as int, height as int, center@, radius as int, col, row),
            forall|col: int, row: int|
                before.contains(col, row) && covers(col, row) ==> x_min <= col <= x_max && y_min
                    <= row <= y_max,
            x_max < width,
            y_max < height,
            x_min <= x,
            painted_upto(before, img@, color, covers, x as int, 0),
        decreases width - x,
    {
        let mut y: usize = y_min;
        assert(painted_upto(before, img@, color, covers, x as int, y as int));
        while y <= y_max
            invariant
                before.wf(),
                before.width == width,
                before.height == height,
                cx == center@.x * width,
                cy == center@.y * height,
                cx <= 16_777_216 * width,
                cy <= 16_777_216 * height,
                covers == |col: int, row: int|
                    disc_covers(width as int, height as int, center@, radius as int, col, row),
                x < width,
                y_max < height,
                y_min <= y,
                painted_upto(before, img@, color, covers, x as int, y as int),
            decreases height - y,
        {
            let ghost now = img@;
            if disc_holds(cx, cy, x, y, radius, Ghost(width as int), Ghost(height as int)) {
                img.set_pixel(x, y, color);
            }
            proof {
                lemma_paint_cell(before, now, img@, color, covers, x as int, y as int);
            }
            y += 1;
        }
        assert(painted_upto(before, img@, color, covers, x as int + 1, 0));
        x += 1;
    }
    assert(painted(before, img@, color, covers));
}

/// What a fill paints is settled by which cells it covers: two fills of one
/// canvas with one colour that cover the same cells give the same canvas.
pub proof fn lemma_painted_determined(
    before: Canvas,
    first: Canvas,
    second: Canvas,
    color: Color,
    f: spec_fn(int, int) -> bool,
    g: spec_fn(int, int) -> bool,
)
    requires
        before.wf(),
        painted(before, first, color, f),
        painted(before, second, color, g),
        forall|col: int, row: int| before.contains(col, row) ==> f(col, row) == g(col, row),
    ensures
        first == second,
{
    let width = before.width as int;
    assert forall|i: int| 0 <= i < first.cells.len() implies first.cells[i] == second.cells[i] by {
        let col = i % width;
        let row = i / width;
        vstd::arithmetic::div_mod::lemma_fundamental_div_mod(i, width);
        assert(width * row == row * width) by (nonlinear_arith);
        assert(row < before.height) by (nonlinear_arith)
            requires
                row * width + col < width * before.height,
                0 <= col,
                width > 0,
        ;
        assert(0 <= row) by (nonlinear_arith)
            requires
                row * width + col >= 0,
                col < width,
                width > 0,
        ;
        assert(before.contains(col, row));
        assert(first.at(col, row) == second.at(col, row));
    }
    assert(first.cells =~= second.cells);
}

/// Filling a triangle gives the same canvas whatever the order in which its
/// vertices are given.
pub proof fn lemma_triangle_fill_order(
    before: Canvas,
    first: Canvas,
    second: Canvas,
    color: Color,
    a: Point,
    b: Point,
    c: Point,
    p: Point,
    q: Point,
    r: Point,
)
    requires
        before.wf(),
        same_vertices(a, b, c, p, q, r),
        painted(
            before,
            first,
            color,
            |col: int, row: int| triangle_covers(before.width as int, before.height as int, a, b, c, col, row),
        ),
        painted(
            before,
            second,
            color,
            |col: int, row: int| triangle_covers(before.width as int, before.height as int, p, q, r, col, row),
        ),
    ensures
        first == second,
{
    let f = |col: int, row: int| triangle_covers(before.width as int, before.height as int, a, b, c, col, row);
    let g = |col: int, row: int| triangle_covers(before.width as int, before.height as int, p, q, r, col, row);
    assert forall|col: int, row: int| before.contains(col, row) implies f(col, row) == g(col, row) by {
        lemma_triangle_covers_symmetric(before.width as int, before.height as int, a, b, c, col, row);
    }
    lemma_painted_determined(before, first, second, color, f, g);
}


} // verus!
