//! Points, triangles, the containment test and the clamped bounding box.

use vstd::prelude::*;

verus! {

/// An integer pixel coordinate.
#[derive(Clone, Copy, Debug, PartialEq, Eq, Structural)]
pub struct Point {
    pub x: i32,
    pub y: i32,
}

/// Three vertices, in no particular order.
#[derive(Clone, Copy, Debug, PartialEq, Eq, Structural)]
pub struct Triangle {
    pub a: Point,
    pub b: Point,
    pub c: Point,
}

/// Twice the signed area of the triangle `(a, b, p)`: the cross product of
/// `b - a` and `p - a`. Its sign says on which side of the directed line
/// from `a` to `b` the point `p` lies.
pub open spec fn orient(a: Point, b: Point, p: Point) -> int {
    (b.x - a.x) * (p.y - a.y) - (b.y - a.y) * (p.x - a.x)
}

/// The least of three numbers.
pub open spec fn min3(a: int, b: int, c: int) -> int {
    if a <= b && a <= c {
        a
    } else if b <= c {
        b
    } else {
        c
    }
}

/// The greatest of three numbers.
pub open spec fn max3(a: int, b: int, c: int) -> int {
    if a >= b && a >= c {
        a
    } else if b >= c {
        b
    } else {
        c
    }
}

/// The lesser of two numbers.
pub open spec fn min2(a: int, b: int) -> int {
    if a <= b {
        a
    } else {
        b
    }
}

/// The greater of two numbers.
pub open spec fn max2(a: int, b: int) -> int {
    if a >= b {
        a
    } else {
        b
    }
}

/// `(x, y)` lies in the half-open rectangle `[x0, x1) x [y0, y1)`.
pub open spec fn in_box(bb: (int, int, int, int), x: int, y: int) -> bool {
    bb.0 <= x < bb.2 && bb.1 <= y < bb.3
}

/// `(x, y)` is a pixel of a `w` by `h` canvas.
pub open spec fn on_canvas(w: u32, h: u32, x: int, y: int) -> bool {
    0 <= x < w && 0 <= y < h
}

/// The product of two differences of `i32` values stays within 64 bits.
proof fn lemma_product_bound(x: int, y: int)
    by (nonlinear_arith)
    requires
        -0x1_0000_0000 < x < 0x1_0000_0000,
        -0x1_0000_0000 < y < 0x1_0000_0000,
    ensures
        -0x1_0000_0000_0000_0000 < x * y < 0x1_0000_0000_0000_0000,
{
}

/// Computes `orient` without overflow: each difference of two `i32` fits in
/// 33 bits, each product in 65.
pub fn orient2d(a: Point, b: Point, p: Point) -> (w: i128)
    ensures
        w == orient(a, b, p),
{
    let bax: i128 = b.x as i128 - a.x as i128;
    let bay: i128 = b.y as i128 - a.y as i128;
    let pax: i128 = p.x as i128 - a.x as i128;
    let pay: i128 = p.y as i128 - a.y as i128;
    proof {
        lemma_product_bound(bax as int, pay as int);
        lemma_product_bound(bay as int, pax as int);
    }
    bax * pay - bay * pax
}

impl Triangle {
    /// Twice the signed area of the triangle; negative when the vertices run
    /// against the winding that the edge tests assume, zero when they lie on
    /// one line.
    pub open spec fn signed_area2(self) -> int {
        orient(self.a, self.b, self.c)
    }

    /// The containment rule: none of the three edge tests is negative. For
    /// a triangle whose signed area is negative the tests are taken the
    /// other way round: none of them is positive. The boundary counts as
    /// inside.
    pub open spec fn covers(self, p: Point) -> bool {
        let w0 = orient(self.a, self.b, p);
        let w1 = orient(self.b, self.c, p);
        let w2 = orient(self.c, self.a, p);
        if self.signed_area2() < 0 {
            w0 <= 0 && w1 <= 0 && w2 <= 0
        } else {
            w0 >= 0 && w1 >= 0 && w2 >= 0
        }
    }

    /// The pixel box of the triangle on a `w` by `h` canvas, as
    /// `(x0, y0, x1, y1)`: the lower corner clamped to zero from below, the
    /// upper corner clamped to the canvas size from above.
    pub open spec fn bounding_box(self, w: u32, h: u32) -> (int, int, int, int) {
        (
            max2(min3(self.a.x as int, self.b.x as int, self.c.x as int), 0),
            max2(min3(self.a.y as int, self.b.y as int, self.c.y as int), 0),
            min2(max3(self.a.x as int, self.b.x as int, self.c.x as int), w as int),
            min2(max3(self.a.y as int, self.b.y as int, self.c.y as int), h as int),
        )
    }

    /// Whether the pixel `(x, y)` belongs to the triangle's footprint on a
    /// `w` by `h` canvas: inside the bounding box and inside the triangle.
    pub open spec fn footprint(self, w: u32, h: u32, x: int, y: int) -> bool {
        &&& in_box(self.bounding_box(w, h), x, y)
        &&& self.covers(Point { x: x as i32, y: y as i32 })
    }

    /// Tests whether `point` lies in the triangle, boundary included. A
    /// triangle whose vertices run the other way round is tested in the
    /// other direction, so that winding never empties a triangle.
    pub fn contains(&self, point: Point) -> (inside: bool)
        ensures
            inside == self.covers(point),
            self.signed_area2() >= 0 ==> inside == (orient(self.a, self.b, point) >= 0 && orient(
                self.b,
                self.c,
                point,
            ) >= 0 && orient(self.c, self.a, point) >= 0),
    {
        let area: i128 = orient2d(self.a, self.b, self.c);
        let w0: i128 = orient2d(self.a, self.b, point);
        let w1: i128 = orient2d(self.b, self.c, point);
        let w2: i128 = orient2d(self.c, self.a, point);
        if area < 0 {
            w0 <= 0 && w1 <= 0 && w2 <= 0
        } else {
            w0 >= 0 && w1 >= 0 && w2 >= 0
        }
    }

    /// The half-open pixel rectangle `[x0, x1) x [y0, y1)` that the triangle
    /// can touch on a `w` by `h` canvas. It is empty (`x0 >= x1` or
    /// `y0 >= y1`) when the triangle misses the canvas, and it never reaches
    /// outside the canvas, wherever the vertices lie.
    pub fn bounding(&self, w: u32, h: u32) -> (bb: (i32, i32, i32, i32))
        ensures
            (bb.0 as int, bb.1 as int, bb.2 as int, bb.3 as int) == self.bounding_box(w, h),
            forall|x: int, y: int| #[trigger]
                in_box(self.bounding_box(w, h), x, y) ==> on_canvas(w, h, x, y),
    {
        let min_x: i32 = lowest(self.a.x, self.b.x, self.c.x);
        let min_y: i32 = lowest(self.a.y, self.b.y, self.c.y);
        let max_x: i32 = highest(self.a.x, self.b.x, self.c.x);
        let max_y: i32 = highest(self.a.y, self.b.y, self.c.y);
        (
            if min_x < 0 { 0 } else { min_x },
            if min_y < 0 { 0 } else { min_y },
            cap(max_x, w),
            cap(max_y, h),
        )
    }
}

/// The least of three coordinates.
fn lowest(a: i32, b: i32, c: i32) -> (m: i32)
    ensures
        m == min3(a as int, b as int, c as int),
{
    if a <= b && a <= c {
        a
    } else if b <= c {
        b
    } else {
        c
    }
}

/// The greatest of three coordinates.
fn highest(a: i32, b: i32, c: i32) -> (m: i32)
    ensures
        m == max3(a as int, b as int, c as int),
{
    if a >= b && a >= c {
        a
    } else if b >= c {
        b
    } else {
        c
    }
}

/// The smaller of a coordinate and a canvas extent.
fn cap(v: i32, limit: u32) -> (m: i32)
    ensures
        m == min2(v as int, limit as int),
{
    if v as i64 <= limit as i64 {
        v
    } else {
        limit as i32
    }
}

/// `p` is the mean of the three vertices under the weights `wa`, `wb`, `wc`.
pub open spec fn is_weighted_mean(t: Triangle, p: Point, wa: int, wb: int, wc: int) -> bool {
    &&& (wa + wb + wc) * p.x == wa * t.a.x + wb * t.b.x + wc * t.c.x
    &&& (wa + wb + wc) * p.y == wa * t.a.y + wb * t.b.y + wc * t.c.y
}

/// `p` lies in the closed region that the triangle spans: it is a mean of
/// the vertices with weights that are not negative. This is plain geometry;
/// it does not depend on the order of the vertices.
pub open spec fn in_closed_triangle(t: Triangle, p: Point) -> bool {
    exists|wa: int, wb: int, wc: int|
        wa >= 0 && wb >= 0 && wc >= 0 && wa + wb + wc > 0 && #[trigger] is_weighted_mean(
            t,
            p,
            wa,
            wb,
            wc,
        )
}

/// `p` lies in the open interior of the triangle: the triangle has area,
/// and `p` is a mean of the vertices in which every vertex has a positive
/// weight.
pub open spec fn strictly_inside(t: Triangle, p: Point) -> bool {
    &&& t.signed_area2() != 0
    &&& exists|wa: int, wb: int, wc: int|
        wa > 0 && wb > 0 && wc > 0 && #[trigger] is_weighted_mean(t, p, wa, wb, wc)
}

/// `p` lies strictly outside the triangle.
pub open spec fn strictly_outside(t: Triangle, p: Point) -> bool {
    !in_closed_triangle(t, p)
}

/// An edge test at a weighted mean of the vertices is the opposite vertex's
/// share of the whole area: with `s` the sum of the weights, `s` times the
/// test of the edge from `a` to `b` is `wc` times the signed area.
proof fn lemma_edge_share(
    ax: int,
    ay: int,
    bx: int,
    by: int,
    cx: int,
    cy: int,
    px: int,
    py: int,
    wa: int,
    wb: int,
    wc: int,
)
    requires
        (wa + wb + wc) * px == wa * ax + wb * bx + wc * cx,
        (wa + wb + wc) * py == wa * ay + wb * by + wc * cy,
    ensures
        (wa + wb + wc) * ((bx - ax) * (py - ay) - (by - ay) * (px - ax)) == wc * ((bx - ax) * (cy
            - ay) - (by - ay) * (cx - ax)),
{
    let s = wa + wb + wc;
    let (ux, uy) = (bx - ax, by - ay);
    let (vx, vy) = (cx - ax, cy - ay);
    let (qx, qy) = (px - ax, py - ay);
    // s * q == wb * u + wc * v, in each coordinate
    assert(s * qx == s * px - (wa * ax + wb * ax + wc * ax)) by (nonlinear_arith)
        requires
            s == wa + wb + wc,
            qx == px - ax,
    ;
    assert(wb * ux + wc * vx == wb * bx + wc * cx - (wb * ax + wc * ax)) by (nonlinear_arith)
        requires
            ux == bx - ax,
            vx == cx - ax,
    ;
    assert(s * qy == s * py - (wa * ay + wb * ay + wc * ay)) by (nonlinear_arith)
        requires
            s == wa + wb + wc,
            qy == py - ay,
    ;
    assert(wb * uy + wc * vy == wb * by + wc * cy - (wb * ay + wc * ay)) by (nonlinear_arith)
        requires
            uy == by - ay,
            vy == cy - ay,
    ;
    let sx = s * qx;
    let sy = s * qy;
    assert(sx == wb * ux + wc * vx);
    assert(sy == wb * uy + wc * vy);
    assert(s * (ux * qy - uy * qx) == ux * sy - uy * sx) by (nonlinear_arith)
        requires
            sx == s * qx,
            sy == s * qy,
    ;
    assert(ux * (wb * uy + wc * vy) - uy * (wb * ux + wc * vx) == wc * (ux * vy - uy * vx))
        by (nonlinear_arith);
}

/// The sign of `w` follows from the sign of `s * w` when `s` is positive.
proof fn lemma_sign_of_share(s: int, w: int, k: int, area: int)
    by (nonlinear_arith)
    requires
        s > 0,
        k >= 0,
        s * w == k * area,
    ensures
        area >= 0 ==> w >= 0,
        area <= 0 ==> w <= 0,
        k > 0 && area > 0 ==> w > 0,
        k > 0 && area < 0 ==> w < 0,
{
}

/// The signed area is the same from whichever vertex it is taken.
proof fn lemma_area_rotates(t: Triangle)
    by (nonlinear_arith)
    ensures
        orient(t.b, t.c, t.a) == orient(t.a, t.b, t.c),
        orient(t.c, t.a, t.b) == orient(t.a, t.b, t.c),
{
}

/// Every point of the closed triangle passes the containment test: the
/// interior and the boundary alike, whichever way the vertices run.
pub proof fn lemma_inside_is_contained(t: Triangle, p: Point)
    requires
        in_closed_triangle(t, p),
    ensures
        t.covers(p),
{
    let (wa, wb, wc) = choose|wa: int, wb: int, wc: int|
        wa >= 0 && wb >= 0 && wc >= 0 && wa + wb + wc > 0 && #[trigger] is_weighted_mean(
            t,
            p,
            wa,
            wb,
            wc,
        );
    let s = wa + wb + wc;
    let area = t.signed_area2();
    lemma_area_rotates(t);
    lemma_edge_share(
        t.a.x as int,
        t.a.y as int,
        t.b.x as int,
        t.b.y as int,
        t.c.x as int,
        t.c.y as int,
        p.x as int,
        p.y as int,
        wa,
        wb,
        wc,
    );
    lemma_sign_of_share(s, orient(t.a, t.b, p), wc, area);
    assert((wb + wc + wa) == s);
    lemma_edge_share(
        t.b.x as int,
        t.b.y as int,
        t.c.x as int,
        t.c.y as int,
        t.a.x as int,
        t.a.y as int,
        p.x as int,
        p.y as int,
        wb,
        wc,
        wa,
    );
    lemma_sign_of_share(s, orient(t.b, t.c, p), wa, area);
    assert((wc + wa + wb) == s);
    lemma_edge_share(
        t.c.x as int,
        t.c.y as int,
        t.a.x as int,
        t.a.y as int,
        t.b.x as int,
        t.b.y as int,
        p.x as int,
        p.y as int,
        wc,
        wa,
        wb,
    );
    lemma_sign_of_share(s, orient(t.c, t.a, p), wb, area);
}

/// A point of the open interior passes the containment test.
pub proof fn lemma_interior_is_contained(t: Triangle, p: Point)
    requires
        strictly_inside(t, p),
    ensures
        t.covers(p),
{
    let (wa, wb, wc) = choose|wa: int, wb: int, wc: int|
        wa > 0 && wb > 0 && wc > 0 && #[trigger] is_weighted_mean(t, p, wa, wb, wc);
    assert(is_weighted_mean(t, p, wa, wb, wc));
    lemma_inside_is_contained(t, p);
}

/// The three edge tests at `p`, taken as weights, have `p` as their mean,
/// and they add up to the signed area.
proof fn lemma_edge_tests_are_weights(t: Triangle, p: Point)
    ensures
        orient(t.b, t.c, p) + orient(t.c, t.a, p) + orient(t.a, t.b, p) == orient(t.a, t.b, t.c),
        orient(t.a, t.b, t.c) * p.x == orient(t.b, t.c, p) * t.a.x + orient(t.c, t.a, p) * t.b.x
            + orient(t.a, t.b, p) * t.c.x,
        orient(t.a, t.b, t.c) * p.y == orient(t.b, t.c, p) * t.a.y + orient(t.c, t.a, p) * t.b.y
            + orient(t.a, t.b, p) * t.c.y,
{
    lemma_weights_identity(
        t.a.x as int,
        t.a.y as int,
        t.b.x as int,
        t.b.y as int,
        t.c.x as int,
        t.c.y as int,
        p.x as int,
        p.y as int,
    );
}

proof fn lemma_weights_identity(
    ax: int,
    ay: int,
    bx: int,
    by: int,
    cx: int,
    cy: int,
    px: int,
    py: int,
)
    ensures
        ((cx - bx) * (py - by) - (cy - by) * (px - bx)) + ((ax - cx) * (py - cy) - (ay - cy) * (px
            - cx)) + ((bx - ax) * (py - ay) - (by - ay) * (px - ax)) == (bx - ax) * (cy - ay) - (by
            - ay) * (cx - ax),
        ((bx - ax) * (cy - ay) - (by - ay) * (cx - ax)) * px == ((cx - bx) * (py - by) - (cy - by)
            * (px - bx)) * ax + ((ax - cx) * (py - cy) - (ay - cy) * (px - cx)) * bx + ((bx - ax)
            * (py - ay) - (by - ay) * (px - ax)) * cx,
        ((bx - ax) * (cy - ay) - (by - ay) * (cx - ax)) * py == ((cx - bx) * (py - by) - (cy - by)
            * (px - bx)) * ay + ((ax - cx) * (py - cy) - (ay - cy) * (px - cx)) * by + ((bx - ax)
            * (py - ay) - (by - ay) * (px - ax)) * cy,
{
    // Everything is taken relative to the vertex `a`.
    let (ux, uy) = (bx - ax, by - ay);
    let (vx, vy) = (cx - ax, cy - ay);
    let (qx, qy) = (px - ax, py - ay);
    let area = ux * vy - uy * vx;
    let w0 = ux * qy - uy * qx;
    let w1 = (cx - bx) * (py - by) - (cy - by) * (px - bx);
    let w2 = (ax - cx) * (py - cy) - (ay - cy) * (px - cx);
    assert(w2 == vy * qx - vx * qy) by (nonlinear_arith)
        requires
            w2 == (0 - vx) * (qy - vy) - (0 - vy) * (qx - vx),
    ;
    assert(w1 == area - w0 - w2) by (nonlinear_arith)
        requires
            w1 == (vx - ux) * (qy - uy) - (vy - uy) * (qx - ux),
            area == ux * vy - uy * vx,
            w0 == ux * qy - uy * qx,
            w2 == vy * qx - vx * qy,
    ;
    assert((ux * vy - uy * vx) * qx == (vy * qx - vx * qy) * ux + (ux * qy - uy * qx) * vx)
        by (nonlinear_arith);
    assert((ux * vy - uy * vx) * qy == (vy * qx - vx * qy) * uy + (ux * qy - uy * qx) * vy)
        by (nonlinear_arith);
    assert(area * px == area * qx + area * ax) by (nonlinear_arith)
        requires
            px == qx + ax,
    ;
    assert(w1 * ax + w2 * bx + w0 * cx == (w1 + w2 + w0) * ax + w2 * ux + w0 * vx)
        by (nonlinear_arith)
        requires
            bx == ax + ux,
            cx == ax + vx,
    ;
    assert(area * py == area * qy + area * ay) by (nonlinear_arith)
        requires
            py == qy + ay,
    ;
    assert(w1 * ay + w2 * by + w0 * cy == (w1 + w2 + w0) * ay + w2 * uy + w0 * vy)
        by (nonlinear_arith)
        requires
            by == ay + uy,
            cy == ay + vy,
    ;
}

/// A point that passes the containment test of a triangle with area lies in
/// the closed triangle.
pub proof fn lemma_contained_is_inside(t: Triangle, p: Point)
    requires
        t.signed_area2() != 0,
        t.covers(p),
    ensures
        in_closed_triangle(t, p),
{
    lemma_edge_tests_are_weights(t, p);
    let area = t.signed_area2();
    let w0 = orient(t.a, t.b, p);
    let w1 = orient(t.b, t.c, p);
    let w2 = orient(t.c, t.a, p);
    if area > 0 {
        assert(is_weighted_mean(t, p, w1, w2, w0));
    } else {
        assert((-w1 + -w2 + -w0) * p.x == -(area * p.x)) by (nonlinear_arith)
            requires
                w1 + w2 + w0 == area,
        ;
        assert((-w1 + -w2 + -w0) * p.y == -(area * p.y)) by (nonlinear_arith)
            requires
                w1 + w2 + w0 == area,
        ;
        assert((-w1) * t.a.x + (-w2) * t.b.x + (-w0) * t.c.x == -(w1 * t.a.x + w2 * t.b.x + w0
            * t.c.x)) by (nonlinear_arith);
        assert((-w1) * t.a.y + (-w2) * t.b.y + (-w0) * t.c.y == -(w1 * t.a.y + w2 * t.b.y + w0
            * t.c.y)) by (nonlinear_arith);
        assert(is_weighted_mean(t, p, -w1, -w2, -w0));
    }
}

/// `p` lies on a line with all three vertices: every edge test at `p` is
/// zero. Only vertices that themselves lie on one line leave room for this.
pub open spec fn on_line_with(t: Triangle, p: Point) -> bool {
    orient(t.a, t.b, p) == 0 && orient(t.b, t.c, p) == 0 && orient(t.c, t.a, p) == 0
}

/// A point strictly outside the triangle fails the containment test, with
/// one exception: where the vertices lie on one line, the points of that
/// line pass the test, also those beyond the vertices.
pub proof fn lemma_outside_is_not_contained(t: Triangle, p: Point)
    requires
        strictly_outside(t, p),
        t.signed_area2() != 0 || !on_line_with(t, p),
    ensures
        !t.covers(p),
{
    if t.covers(p) {
        if t.signed_area2() != 0 {
            lemma_contained_is_inside(t, p);
        } else {
            lemma_edge_tests_are_weights(t, p);
        }
    }
}

/// For a triangle with area the containment test is plain geometry: a point
/// passes it exactly when it lies in the closed triangle, interior or
/// boundary, whichever way the vertices run.
pub proof fn lemma_containment_is_geometric(t: Triangle, p: Point)
    requires
        t.signed_area2() != 0,
    ensures
        t.covers(p) <==> in_closed_triangle(t, p),
{
    if t.covers(p) {
        lemma_contained_is_inside(t, p);
    }
    if in_closed_triangle(t, p) {
        lemma_inside_is_contained(t, p);
    }
}

} // verus!



