//! Triangles filled by testing every pixel of the bounding box with
//! barycentric coordinates. The weights are kept as exact whole numbers
//! over a common denominator; the depth of a pixel is their weighted mean
//! of the corners' depths, rounded toward zero.
use crate::geometry::{Vec2, Vec3i};
use crate::raster::mask::{
    deepened, lemma_deepen_none, lemma_deepen_same, lemma_deepen_step, lemma_deepened_at,
    lemma_paint_none, lemma_paint_same, lemma_paint_step, mask_empty, mask_grows, masks_agree,
    painted, Mask,
};
use crate::raster::scan::{div_toward_zero, greatest, least, Triangle};
use crate::raster::{frame_of, Frame};
use crate::tga::{TGAColor, TGAImage};
use vstd::arithmetic::div_mod::{lemma_div_by_multiple, lemma_div_is_ordered, lemma_div_pos_is_pos};
use vstd::prelude::*;

verus! {

/// Barycentric coordinates of a point as three whole numbers over their
/// sum: the point is `(a * A + b * B + c * C) / sum` for the corners `A`,
/// `B`, `C`.
pub struct Weights {
    pub a: int,
    pub b: int,
    pub c: int,
    pub sum: int,
}

impl Weights {
    /// No weight is negative: the point lies in the triangle or on its
    /// border.
    pub open spec fn inside(self) -> bool {
        self.a >= 0 && self.b >= 0 && self.c >= 0
    }

    /// What stands for the coordinates of every point when the triangle
    /// has no area: the first weight is negative, so no point is inside.
    pub open spec fn nowhere() -> Weights {
        Weights { a: -1, b: 1, c: 1, sum: 1 }
    }
}

impl Triangle {
    /// Twice the area of the triangle, negative when the corners run the
    /// other way round.
    pub open spec fn doubled_area(self) -> int {
        (self.c.x - self.a.x) * (self.b.y - self.a.y) - (self.b.x - self.a.x) * (self.c.y
            - self.a.y)
    }

    /// The barycentric coordinates of `(x, y)`, with a positive sum; of a
    /// triangle without area, `Weights::nowhere()`.
    pub open spec fn weights(self, x: int, y: int) -> Weights {
        let for_c = (self.b.x - self.a.x) * (self.a.y - y) - (self.a.x - x) * (self.b.y
            - self.a.y);
        let for_b = (self.a.x - x) * (self.c.y - self.a.y) - (self.c.x - self.a.x) * (self.a.y
            - y);
        let area = self.doubled_area();
        if area == 0 {
            Weights::nowhere()
        } else if area > 0 {
            Weights { a: area - for_c - for_b, b: for_b, c: for_c, sum: area }
        } else {
            Weights { a: -(area - for_c - for_b), b: -for_b, c: -for_c, sum: -area }
        }
    }

    /// `(x, y)` lies in the smallest upright rectangle that holds the
    /// three corners.
    pub open spec fn in_box(self, x: int, y: int) -> bool {
        &&& least(self.a.x as int, self.b.x as int, self.c.x as int) <= x <= greatest(
            self.a.x as int,
            self.b.x as int,
            self.c.x as int,
        )
        &&& least(self.a.y as int, self.b.y as int, self.c.y as int) <= y <= greatest(
            self.a.y as int,
            self.b.y as int,
            self.c.y as int,
        )
    }

    /// Pixel `(x, y)` passes the barycentric test: it lies in the box of
    /// the corners and none of its weights is negative.
    pub open spec fn holds(self, x: int, y: int) -> bool {
        self.in_box(x, y) && self.weights(x, y).inside()
    }

    /// The depth of the triangle at `(x, y)`: the corners' depths
    /// weighted by the barycentric coordinates.
    pub open spec fn depth_at(self, x: int, y: int) -> int {
        let w = self.weights(x, y);
        div_toward_zero(self.a.z * w.a + self.b.z * w.b + self.c.z * w.c, w.sum)
    }

    /// Pixel `(x, y)` comes before row `cy` of column `cx` when the box is
    /// walked column by column.
    pub open spec fn walked_before(cx: int, cy: int, x: int, y: int) -> bool {
        x < cx || (x == cx && y < cy)
    }

    /// The weights add up to their sum, which is positive.
    pub proof fn lemma_weights_sum(self, x: int, y: int)
        ensures
            self.weights(x, y).sum > 0,
            self.weights(x, y).a + self.weights(x, y).b + self.weights(x, y).c == self.weights(
                x,
                y,
            ).sum,
    {
    }

    /// A point is the mean of the corners weighted by its barycentric
    /// coordinates.
    pub proof fn lemma_weights_locate(self, x: int, y: int)
        requires
            self.doubled_area() != 0,
        ensures
            self.weights(x, y).sum * (x - self.a.x) == self.weights(x, y).b * (self.b.x
                - self.a.x) + self.weights(x, y).c * (self.c.x - self.a.x),
            self.weights(x, y).sum * (y - self.a.y) == self.weights(x, y).b * (self.b.y
                - self.a.y) + self.weights(x, y).c * (self.c.y - self.a.y),
    {
        let p = self.b.x - self.a.x;
        let q = self.b.y - self.a.y;
        let r = self.c.x - self.a.x;
        let s = self.c.y - self.a.y;
        let dx = x - self.a.x;
        let dy = y - self.a.y;
        let for_c = p * (-dy) - (-dx) * q;
        let for_b = (-dx) * s - r * (-dy);
        let area = r * q - p * s;
        lemma_cramer(p, q, r, s, dx, dy);
        if area < 0 {
            assert((-area) * dx == (-for_b) * p + (-for_c) * r) by (nonlinear_arith)
                requires
                    area * dx == for_b * p + for_c * r,
            ;
            assert((-area) * dy == (-for_b) * q + (-for_c) * s) by (nonlinear_arith)
                requires
                    area * dy == for_b * q + for_c * s,
            ;
        }
    }

    /// A pixel without a negative weight lies in the box of the corners:
    /// the box leaves out no pixel that the weights would let in.
    pub proof fn lemma_inside_is_in_box(self, x: int, y: int)
        requires
            self.weights(x, y).inside(),
        ensures
            self.in_box(x, y),
            self.holds(x, y),
    {
        let w = self.weights(x, y);
        self.lemma_weights_sum(x, y);
        self.lemma_weights_locate(x, y);
        lemma_mean_between(
            w,
            self.a.x as int,
            self.b.x as int,
            self.c.x as int,
            x,
            least(self.a.x as int, self.b.x as int, self.c.x as int),
            greatest(self.a.x as int, self.b.x as int, self.c.x as int),
        );
        lemma_mean_between(
            w,
            self.a.y as int,
            self.b.y as int,
            self.c.y as int,
            y,
            least(self.a.y as int, self.b.y as int, self.c.y as int),
            greatest(self.a.y as int, self.b.y as int, self.c.y as int),
        );
    }

    /// A triangle whose corners lie in one row has no area, and no pixel
    /// passes its barycentric test.
    pub proof fn lemma_flat_holds_nothing(self, x: int, y: int)
        requires
            self.degenerate(),
        ensures
            self.doubled_area() == 0,
            self.weights(x, y) == Weights::nowhere(),
            !self.holds(x, y),
    {
        assert(self.doubled_area() == 0) by (nonlinear_arith)
            requires
                self.b.y - self.a.y == 0,
                self.c.y - self.a.y == 0,
                self.doubled_area() == (self.c.x - self.a.x) * (self.b.y - self.a.y) - (self.b.x
                    - self.a.x) * (self.c.y - self.a.y),
        ;
    }

    /// Where no weight is negative, the depth lies between the least and
    /// the greatest depth of the corners.
    pub proof fn lemma_depth_between(self, x: int, y: int)
        requires
            self.weights(x, y).inside(),
        ensures
            least(self.a.z as int, self.b.z as int, self.c.z as int) <= self.depth_at(x, y)
                <= greatest(self.a.z as int, self.b.z as int, self.c.z as int),
    {
        let w = self.weights(x, y);
        let lo = least(self.a.z as int, self.b.z as int, self.c.z as int);
        let hi = greatest(self.a.z as int, self.b.z as int, self.c.z as int);
        let total = self.a.z * w.a + self.b.z * w.b + self.c.z * w.c;
        self.lemma_weights_sum(x, y);
        lemma_weighted_mean(self.a.z as int, self.b.z as int, self.c.z as int, w, lo);
        lemma_weighted_mean(self.a.z as int, self.b.z as int, self.c.z as int, w, hi);
        lemma_quotient_between(total, w.sum, lo, hi);
    }
}

/// A mean with weights that are not negative lies between the least and
/// the greatest of what it is the mean of.
proof fn lemma_mean_between(w: Weights, va: int, vb: int, vc: int, v: int, lo: int, hi: int)
    requires
        w.inside(),
        0 < w.sum,
        w.a + w.b + w.c == w.sum,
        w.sum * (v - va) == w.b * (vb - va) + w.c * (vc - va),
        lo <= va <= hi,
        lo <= vb <= hi,
        lo <= vc <= hi,
    ensures
        lo <= v <= hi,
{
    assert(w.b * (vb - va) >= w.b * (lo - va) && w.b * (vb - va) <= w.b * (hi - va))
        by (nonlinear_arith)
        requires
            w.b >= 0,
            lo <= vb <= hi,
    ;
    assert(w.c * (vc - va) >= w.c * (lo - va) && w.c * (vc - va) <= w.c * (hi - va))
        by (nonlinear_arith)
        requires
            w.c >= 0,
            lo <= vc <= hi,
    ;
    assert((w.b + w.c) * (lo - va) >= w.sum * (lo - va) && (w.b + w.c) * (hi - va) <= w.sum * (hi
        - va)) by (nonlinear_arith)
        requires
            0 <= w.b + w.c <= w.sum,
            lo <= va <= hi,
    ;
    assert((w.b + w.c) * (lo - va) == w.b * (lo - va) + w.c * (lo - va) && (w.b + w.c) * (hi - va)
        == w.b * (hi - va) + w.c * (hi - va)) by (nonlinear_arith);
    assert(v - va >= lo - va && v - va <= hi - va) by (nonlinear_arith)
        requires
            0 < w.sum,
            w.sum * (v - va) >= w.sum * (lo - va),
            w.sum * (v - va) <= w.sum * (hi - va),
    ;
}

/// Cramer's rule for two equations: the point `(dx, dy)` is the sum of
/// the vectors `(p, q)` and `(r, s)` with the weights that the
/// determinants give.
proof fn lemma_cramer(p: int, q: int, r: int, s: int, dx: int, dy: int)
    ensures
        (r * q - p * s) * dx == ((-dx) * s - r * (-dy)) * p + (p * (-dy) - (-dx) * q) * r,
        (r * q - p * s) * dy == ((-dx) * s - r * (-dy)) * q + (p * (-dy) - (-dx) * q) * s,
{
    let for_b = (-dx) * s - r * (-dy);
    let for_c = p * (-dy) - (-dx) * q;
    lemma_difference_times(r * q, p * s, dx);
    lemma_difference_times((-dx) * s, r * (-dy), p);
    lemma_difference_times(p * (-dy), (-dx) * q, r);
    assert(((-dx) * s) * p == -((p * s) * dx)) by (nonlinear_arith);
    assert((r * (-dy)) * p == (p * (-dy)) * r) by (nonlinear_arith);
    assert(((-dx) * q) * r == -((r * q) * dx)) by (nonlinear_arith);
    lemma_difference_times(r * q, p * s, dy);
    lemma_difference_times((-dx) * s, r * (-dy), q);
    lemma_difference_times(p * (-dy), (-dx) * q, s);
    assert((r * (-dy)) * q == -((r * q) * dy)) by (nonlinear_arith);
    assert(((-dx) * s) * q == ((-dx) * q) * s) by (nonlinear_arith);
    assert((p * (-dy)) * s == -((p * s) * dy)) by (nonlinear_arith);
}

/// `(a - b) * c` is `a * c - b * c`.
proof fn lemma_difference_times(a: int, b: int, c: int)
    ensures
        (a - b) * c == a * c - b * c,
{
    assert((a - b) * c == a * c - b * c) by (nonlinear_arith);
}

/// A weighted sum lies on the same side of `bound` times the weights'
/// sum as the three values lie of `bound`.
proof fn lemma_weighted_mean(za: int, zb: int, zc: int, w: Weights, bound: int)
    requires
        w.inside(),
        w.a + w.b + w.c == w.sum,
    ensures
        bound <= za && bound <= zb && bound <= zc ==> bound * w.sum <= za * w.a + zb * w.b + zc
            * w.c,
        bound >= za && bound >= zb && bound >= zc ==> bound * w.sum >= za * w.a + zb * w.b + zc
            * w.c,
{
    assert(bound * w.sum == bound * w.a + bound * w.b + bound * w.c) by (nonlinear_arith)
        requires
            w.a + w.b + w.c == w.sum,
    ;
    assert(bound <= za ==> bound * w.a <= za * w.a) by (nonlinear_arith)
        requires
            w.a >= 0,
    ;
    assert(bound <= zb ==> bound * w.b <= zb * w.b) by (nonlinear_arith)
        requires
            w.b >= 0,
    ;
    assert(bound <= zc ==> bound * w.c <= zc * w.c) by (nonlinear_arith)
        requires
            w.c >= 0,
    ;
    assert(bound >= za ==> bound * w.a >= za * w.a) by (nonlinear_arith)
        requires
            w.a >= 0,
    ;
    assert(bound >= zb ==> bound * w.b >= zb * w.b) by (nonlinear_arith)
        requires
            w.b >= 0,
    ;
    assert(bound >= zc ==> bound * w.c >= zc * w.c) by (nonlinear_arith)
        requires
            w.c >= 0,
    ;
}

/// A quotient rounded toward zero lies between two bounds when the
/// dividend lies between their products with the divisor.
proof fn lemma_quotient_between(total: int, d: int, lo: int, hi: int)
    requires
        0 < d,
        lo * d <= total <= hi * d,
    ensures
        lo <= div_toward_zero(total, d) <= hi,
{
    if total >= 0 {
        lemma_div_pos_is_pos(total, d);
        lemma_div_is_ordered(total, hi * d, d);
        assert(0 <= hi) by (nonlinear_arith)
            requires
                0 <= total <= hi * d,
                0 < d,
        ;
        lemma_div_by_multiple(hi, d);
        if lo > 0 {
            lemma_div_is_ordered(lo * d, total, d);
            lemma_div_by_multiple(lo, d);
        }
    } else {
        lemma_div_pos_is_pos(-total, d);
        assert(lo < 0) by (nonlinear_arith)
            requires
                lo * d <= total < 0,
                0 < d,
        ;
        assert(-total <= (-lo) * d) by (nonlinear_arith)
            requires
                lo * d <= total,
        ;
        lemma_div_is_ordered(-total, (-lo) * d, d);
        lemma_div_by_multiple(-lo, d);
        if hi < 0 {
            assert((-hi) * d <= -total) by (nonlinear_arith)
                requires
                    total <= hi * d,
            ;
            lemma_div_is_ordered((-hi) * d, -total, d);
            lemma_div_by_multiple(-hi, d);
        }
    }
}

/// `Weights` in executable code.
#[derive(Debug, Clone, Copy)]
pub struct Barycentric {
    pub a: i128,
    pub b: i128,
    pub c: i128,
    pub sum: i128,
}

impl View for Barycentric {
    type V = Weights;

    open spec fn view(&self) -> Weights {
        Weights { a: self.a as int, b: self.b as int, c: self.c as int, sum: self.sum as int }
    }
}

/// The difference of two coordinates, which fits 33 bits.
fn span(from: i32, to: i32) -> (d: i128)
    ensures
        d == to - from,
        -0x1_0000_0000 < d < 0x1_0000_0000,
{
    to as i128 - from as i128
}

/// The product of two coordinate differences.
fn area_term(p: i128, q: i128) -> (r: i128)
    requires
        -0x1_0000_0000 < p < 0x1_0000_0000,
        -0x1_0000_0000 < q < 0x1_0000_0000,
    ensures
        r == p * q,
        -0x1_0000_0000 * 0x1_0000_0000 <= r <= 0x1_0000_0000 * 0x1_0000_0000,
{
    assert(-0x1_0000_0000 * 0x1_0000_0000 <= p * q <= 0x1_0000_0000 * 0x1_0000_0000)
        by (nonlinear_arith)
        requires
            -0x1_0000_0000 < p < 0x1_0000_0000,
            -0x1_0000_0000 < q < 0x1_0000_0000,
    ;
    p * q
}

/// The barycentric coordinates of `p` in the triangle `a`, `b`, `c`, by
/// their positions on screen; `Weights::nowhere()` for a triangle without
/// area.
pub fn barycentric(a: Vec3i, b: Vec3i, c: Vec3i, p: Vec3i) -> (w: Barycentric)
    ensures
        w@ == Triangle::of(a, b, c, Vec2 { x: 0, y: 0 }, Vec2 { x: 0, y: 0 }, Vec2 { x: 0, y: 0 })
            .weights(p.x as int, p.y as int),
        0 < w.sum <= 0x2_0000_0000_0000_0000,
{
    let for_c: i128 = area_term(span(a.x, b.x), span(p.y, a.y)) - area_term(
        span(p.x, a.x),
        span(a.y, b.y),
    );
    let for_b: i128 = area_term(span(p.x, a.x), span(a.y, c.y)) - area_term(
        span(a.x, c.x),
        span(p.y, a.y),
    );
    let area: i128 = area_term(span(a.x, c.x), span(a.y, b.y)) - area_term(
        span(a.x, b.x),
        span(a.y, c.y),
    );
    if area == 0 {
        Barycentric { a: -1, b: 1, c: 1, sum: 1 }
    } else if area > 0 {
        Barycentric { a: area - for_c - for_b, b: for_b, c: for_c, sum: area }
    } else {
        Barycentric { a: -(area - for_c - for_b), b: -for_b, c: -for_c, sum: -area }
    }
}

/// The least coordinate of a box that is a coordinate of the image.
pub open spec fn first_inside(least: int) -> int {
    if least < 0 {
        0
    } else {
        least
    }
}

/// The greatest coordinate of a box that is a coordinate of an image of
/// the given extent; -1 for an empty image.
pub open spec fn last_inside(greatest: int, extent: int) -> int {
    if greatest < extent {
        greatest
    } else {
        extent - 1
    }
}

fn min3(a: i32, b: i32, c: i32) -> (m: i32)
    ensures
        m == least(a as int, b as int, c as int),
{
    if a <= b && a <= c {
        a
    } else if b <= c {
        b
    } else {
        c
    }
}

fn max3(a: i32, b: i32, c: i32) -> (m: i32)
    ensures
        m == greatest(a as int, b as int, c as int),
{
    if a >= b && a >= c {
        a
    } else if b >= c {
        b
    } else {
        c
    }
}

impl Frame {
    /// The triangle is seen at pixel `(x, y)` by the barycentric test:
    /// the pixel is in the image and has a depth entry, passes the test,
    /// and the triangle is strictly nearer there than what the frame
    /// holds.
    pub open spec fn sees(self, tri: Triangle, x: int, y: int) -> bool {
        &&& self.image.contains(x, y)
        &&& x + y * self.image.width < self.depth.len()
        &&& tri.holds(x, y)
        &&& self.depth[x + y * self.image.width] < tri.depth_at(x, y)
    }

    /// The pixels where the triangle is seen.
    pub open spec fn seen(self, tri: Triangle) -> Mask {
        |x: int, y: int| self.sees(tri, x, y)
    }

    /// The pixels where the triangle is seen that come before row `cy` of
    /// column `cx`.
    pub open spec fn seen_before(self, tri: Triangle, cx: int, cy: int) -> Mask {
        |x: int, y: int| self.sees(tri, x, y) && Triangle::walked_before(cx, cy, x, y)
    }

    /// The frame after the triangle was drawn in one colour by the
    /// barycentric test: where it is seen, the depth is its own and the
    /// colour is `color`; everywhere else the frame is as before.
    pub open spec fn rastered(self, tri: Triangle, color: Seq<u8>) -> Frame {
        Frame {
            depth: deepened(self.depth, self.image.width, self.seen(tri), weighted_depth(tri)),
            image: painted(self.image, self.seen(tri), crate::raster::line::uniform(color)),
        }
    }

    /// The frame while the box is walked, just before row `cy` of column
    /// `cx`.
    pub open spec fn rastered_before(
        self,
        tri: Triangle,
        color: Seq<u8>,
        cx: int,
        cy: int,
    ) -> Frame {
        Frame {
            depth: deepened(
                self.depth,
                self.image.width,
                self.seen_before(tri, cx, cy),
                weighted_depth(tri),
            ),
            image: painted(
                self.image,
                self.seen_before(tri, cx, cy),
                crate::raster::line::uniform(color),
            ),
        }
    }

    /// Two places of the walk before which the same pixels are seen give
    /// the same frame.
    proof fn lemma_rastered_same(
        self,
        tri: Triangle,
        color: Seq<u8>,
        cx: int,
        cy: int,
        dx: int,
        dy: int,
    )
        requires
            masks_agree(
                self.image.width,
                self.seen_before(tri, cx, cy),
                self.seen_before(tri, dx, dy),
            ),
        ensures
            self.rastered_before(tri, color, cx, cy) == self.rastered_before(tri, color, dx, dy),
    {
        let m1 = self.seen_before(tri, cx, cy);
        let m2 = self.seen_before(tri, dx, dy);
        lemma_paint_same(self.image, m1, m2, crate::raster::line::uniform(color));
        lemma_deepen_same(self.depth, self.image.width, m1, m2, weighted_depth(tri));
    }
}

/// The depth that a triangle brings to each pixel by its barycentric
/// coordinates.
pub open spec fn weighted_depth(tri: Triangle) -> spec_fn(int, int) -> int {
    |x: int, y: int| tri.depth_at(x, y)
}

/// Draws a triangle in one colour: every pixel of the corners' box, cut
/// to the image, that has no negative barycentric coordinate and is
/// strictly nearer than what the depth buffer holds there gets the
/// colour, and its depth is recorded. A triangle without area draws
/// nothing.
pub fn triangle_raster(
    pts: [Vec3i; 3],
    zbuffer: &mut Vec<i32>,
    image: &mut TGAImage,
    color: TGAColor,
)
    ensures
        frame_of(final(zbuffer)@, final(image)@) == frame_of(old(zbuffer)@, old(image)@).rastered(
            Triangle::of(
                pts[0],
                pts[1],
                pts[2],
                Vec2 { x: 0, y: 0 },
                Vec2 { x: 0, y: 0 },
                Vec2 { x: 0, y: 0 },
            ),
            color@,
        ),
{
    let ghost frame = frame_of(zbuffer@, image@);
    let ghost zero = Vec2 { x: 0i32, y: 0i32 };
    let ghost tri = Triangle::of(pts[0], pts[1], pts[2], zero, zero, zero);
    let ghost col = color@;
    proof {
        use_type_invariant(&*image);
        image.lemma_inv();
    }
    let a: Vec3i = pts[0];
    let b: Vec3i = pts[1];
    let c: Vec3i = pts[2];
    let width: i32 = image.width();
    let height: i32 = image.height();
    let low_x: i32 = min3(a.x, b.x, c.x);
    let low_y: i32 = min3(a.y, b.y, c.y);
    let high_x: i32 = max3(a.x, b.x, c.x);
    let high_y: i32 = max3(a.y, b.y, c.y);
    let min_x: i64 = if low_x < 0 {
        0
    } else {
        low_x as i64
    };
    let min_y: i64 = if low_y < 0 {
        0
    } else {
        low_y as i64
    };
    let max_x: i64 = if high_x < width {
        high_x as i64
    } else {
        width as i64 - 1
    };
    let max_y: i64 = if high_y < height {
        high_y as i64
    } else {
        height as i64 - 1
    };
    let mut x: i64 = min_x;
    proof {
        let m = frame.seen_before(tri, min_x as int, min_y as int);
        lemma_paint_none(frame.image, m, crate::raster::line::uniform(col));
        lemma_deepen_none(frame.depth, frame.image.width, m, weighted_depth(tri));
    }
    while x <= max_x
        invariant
            min_x <= x,
            x <= max_x + 1 || max_x < min_x,
            0 <= min_x,
            0 <= min_y,
            max_x < width,
            max_y < height,
            min_x == first_inside(least(a.x as int, b.x as int, c.x as int)),
            min_y == first_inside(least(a.y as int, b.y as int, c.y as int)),
            max_x == last_inside(greatest(a.x as int, b.x as int, c.x as int), width as int),
            max_y == last_inside(greatest(a.y as int, b.y as int, c.y as int), height as int),
            tri == Triangle::of(a, b, c, zero, zero, zero),
            col == color@,
            frame.image.wf(),
            width == frame.image.width,
            height == frame.image.height,
            frame_of(zbuffer@, image@) == frame.rastered_before(tri, col, x as int, min_y as int),
        decreases max_x + 1 - x,
    {
        let mut y: i64 = min_y;
        while y <= max_y
            invariant
                min_x <= x <= max_x,
                min_y <= y,
                y <= max_y + 1 || max_y < min_y,
                0 <= min_x,
                0 <= min_y,
                max_x < width,
                max_y < height,
                min_y == first_inside(least(a.y as int, b.y as int, c.y as int)),
                max_y == last_inside(greatest(a.y as int, b.y as int, c.y as int), height as int),
                least(a.x as int, b.x as int, c.x as int) <= x <= greatest(
                    a.x as int,
                    b.x as int,
                    c.x as int,
                ),
                tri == Triangle::of(a, b, c, zero, zero, zero),
                col == color@,
                frame.image.wf(),
                width == frame.image.width,
                height == frame.image.height,
                frame_of(zbuffer@, image@) == frame.rastered_before(tri, col, x as int, y as int),
            decreases max_y + 1 - y,
        {
            let ghost mut drawn = false;
            let w: Barycentric = barycentric(a, b, c, Vec3i { x: x as i32, y: y as i32, z: 0 });
            if w.a >= 0 && w.b >= 0 && w.c >= 0 {
                proof {
                    tri.lemma_weights_sum(x as int, y as int);
                    tri.lemma_depth_between(x as int, y as int);
                }
                assert(-0x8000_0000 * 0x8_0000_0000_0000_0000 <= a.z * w.a <= 0x8000_0000
                    * 0x8_0000_0000_0000_0000) by (nonlinear_arith)
                    requires
                        -0x8000_0000 <= a.z < 0x8000_0000,
                        0 <= w.a <= 0x8_0000_0000_0000_0000,
                ;
                assert(-0x8000_0000 * 0x8_0000_0000_0000_0000 <= b.z * w.b <= 0x8000_0000
                    * 0x8_0000_0000_0000_0000) by (nonlinear_arith)
                    requires
                        -0x8000_0000 <= b.z < 0x8000_0000,
                        0 <= w.b <= 0x8_0000_0000_0000_0000,
                ;
                assert(-0x8000_0000 * 0x8_0000_0000_0000_0000 <= c.z * w.c <= 0x8000_0000
                    * 0x8_0000_0000_0000_0000) by (nonlinear_arith)
                    requires
                        -0x8000_0000 <= c.z < 0x8000_0000,
                        0 <= w.c <= 0x8_0000_0000_0000_0000,
                ;
                let total: i128 = a.z as i128 * w.a + b.z as i128 * w.b + c.z as i128 * w.c;
                let quotient: i128 = if total >= 0 {
                    total / w.sum
                } else {
                    -((-total) / w.sum)
                };
                let z: i32 = quotient as i32;
                assert(y * width <= 0x8000_0000 * 0x8000_0000 && 0 <= y * width)
                    by (nonlinear_arith)
                    requires
                        0 <= y < 0x8000_0000,
                        0 <= width < 0x8000_0000,
                ;
                let idx: i64 = x + y * width as i64;
                if (idx as u64) < zbuffer.len() as u64 {
                    let at: usize = idx as usize;
                    proof {
                        lemma_deepened_at(
                            frame.depth,
                            frame.image.width,
                            frame.seen_before(tri, x as int, y as int),
                            weighted_depth(tri),
                            x as int,
                            y as int,
                        );
                    }
                    if z > zbuffer[at] {
                        proof {
                            drawn = true;
                            let m1 = frame.seen_before(tri, x as int, y as int);
                            let m2 = frame.seen_before(tri, x as int, y + 1);
                            lemma_paint_step(
                                frame.image,
                                m1,
                                m2,
                                crate::raster::line::uniform(col),
                                x as int,
                                y as int,
                            );
                            lemma_deepen_step(
                                frame.depth,
                                frame.image.width,
                                m1,
                                m2,
                                weighted_depth(tri),
                                x as int,
                                y as int,
                            );
                        }
                        zbuffer.set(at, z);
                        let _ = image.set(x as usize, y as usize, color);
                    }
                }
            }
            proof {
                if !drawn {
                    frame.lemma_rastered_same(tri, col, x as int, y as int, x as int, y + 1);
                }
            }
            y += 1;
        }
        proof {
            frame.lemma_rastered_same(tri, col, x as int, y as int, x + 1, min_y as int);
        }
        x += 1;
    }
    proof {
        let m1 = frame.seen_before(tri, x as int, min_y as int);
        let m2 = frame.seen(tri);
        lemma_paint_same(frame.image, m1, m2, crate::raster::line::uniform(col));
        lemma_deepen_same(frame.depth, frame.image.width, m1, m2, weighted_depth(tri));
    }
}

} // verus!
