//! Scan conversion of a triangle: its corners sorted by row, the first
//! and the last column of each row, and the values interpolated between
//! them. All of it is exact integer arithmetic. The columns of a row are
//! the whole numbers between the exact places of the two edges, so no
//! pixel outside the triangle is covered; what is interpolated is rounded
//! toward zero.
use crate::geometry::{Vec2i, Vec3i};
use vstd::arithmetic::div_mod::{
    lemma_div_by_multiple, lemma_div_is_ordered, lemma_div_pos_is_pos, lemma_fundamental_div_mod,
    lemma_fundamental_div_mod_converse, lemma_mod_bound,
};
use vstd::arithmetic::mul::{lemma_mul_inequality, lemma_mul_is_commutative, lemma_mul_nonnegative};
use vstd::prelude::*;

verus! {

/// The quotient `a / b` rounded toward zero, for `b > 0`.
pub open spec fn div_toward_zero(a: int, b: int) -> int {
    if a >= 0 {
        a / b
    } else {
        -((-a) / b)
    }
}

/// The value `num / den` of the way from `from` to `to`, rounded toward
/// `from`.
pub open spec fn lerp(from: int, to: int, num: int, den: int) -> int {
    from + div_toward_zero((to - from) * num, den)
}

/// An interpolated value lies between the two ends, and is an end when
/// the parameter is 0 or 1.
pub proof fn lemma_lerp_between(from: int, to: int, num: int, den: int)
    requires
        0 <= num <= den,
        0 < den,
    ensures
        from <= to ==> from <= lerp(from, to, num, den) <= to,
        to <= from ==> to <= lerp(from, to, num, den) <= from,
        num == 0 ==> lerp(from, to, num, den) == from,
        num == den ==> lerp(from, to, num, den) == to,
{
    let d = to - from;
    let size = if d >= 0 {
        d
    } else {
        -d
    };
    let p = size * num;
    lemma_mul_nonnegative(size, num);
    lemma_mul_inequality(num, den, size);
    lemma_mul_is_commutative(size, num);
    lemma_mul_is_commutative(size, den);
    lemma_div_pos_is_pos(p, den);
    lemma_div_is_ordered(p, size * den, den);
    lemma_div_by_multiple(size, den);
    assert(0 <= p / den <= size);
    assert((-d) * num == -(d * num)) by (nonlinear_arith);
    if num == 0 {
        assert(p == 0) by (nonlinear_arith)
            requires
                p == size * num,
                num == 0,
        ;
    }
    if num == den {
        assert(p / den == size);
    }
    if d >= 0 {
        assert(d * num == p);
    } else {
        assert(-(d * num) == p);
        if p == 0 {
            assert(d * num == 0);
        }
    }
}

/// The exact quotient of `(to - from) * num` by `den`, rounded toward
/// zero and added to `from`.
pub(crate) fn lerp_i32(from: i32, to: i32, num: i64, den: i64) -> (r: i32)
    requires
        0 <= num <= den,
        0 < den,
    ensures
        r == lerp(from as int, to as int, num as int, den as int),
{
    proof {
        lemma_lerp_between(from as int, to as int, num as int, den as int);
    }
    let d: i64 = to as i64 - from as i64;
    assert(-0x1_0000_0000 * 0x7FFF_FFFF_FFFF_FFFF <= d * num <= 0x1_0000_0000
        * 0x7FFF_FFFF_FFFF_FFFF) by (nonlinear_arith)
        requires
            -0x1_0000_0000 <= d <= 0x1_0000_0000,
            0 <= num <= 0x7FFF_FFFF_FFFF_FFFF,
    ;
    let wide: i128 = d as i128 * num as i128;
    let den_wide: i128 = den as i128;
    let q: i128 = if wide >= 0 {
        wide / den_wide
    } else {
        -((-wide) / den_wide)
    };
    assert(q == div_toward_zero((to - from) * num, den as int));
    (from as i128 + q) as i32
}

/// The quotient `num / den` rounded down, for `den > 0`.
pub open spec fn floor_div(num: int, den: int) -> int {
    num / den
}

/// The quotient `num / den` rounded up, for `den > 0`.
pub open spec fn ceil_div(num: int, den: int) -> int {
    -((-num) / den)
}

/// A whole number is at most the quotient rounded down exactly if it is
/// at most the quotient.
pub proof fn lemma_floor_div(num: int, den: int, k: int)
    requires
        0 < den,
    ensures
        k <= floor_div(num, den) <==> k * den <= num,
{
    let q = num / den;
    lemma_fundamental_div_mod(num, den);
    lemma_mod_bound(num, den);
    assert(den * q == q * den) by (nonlinear_arith);
    if k <= q {
        assert(k * den <= q * den) by (nonlinear_arith)
            requires
                k <= q,
                0 < den,
        ;
    } else {
        assert(k * den >= q * den + den) by (nonlinear_arith)
            requires
                k >= q + 1,
                0 < den,
        ;
    }
}

/// A whole number is at least the quotient rounded up exactly if it is
/// at least the quotient.
pub proof fn lemma_ceil_div(num: int, den: int, k: int)
    requires
        0 < den,
    ensures
        k >= ceil_div(num, den) <==> k * den >= num,
{
    lemma_floor_div(-num, den, -k);
    assert((-k) * den == -(k * den)) by (nonlinear_arith);
}

/// The place where the edge from column `p` to column `q` crosses the
/// row `k` of its `s` rows is `edge_num(p, q, k, s) / s`.
pub open spec fn edge_num(p: int, q: int, k: int, s: int) -> int {
    p * s + (q - p) * k
}

/// The place of an edge in a row lies between the columns of its ends.
pub proof fn lemma_edge_between(p: int, q: int, k: int, s: int)
    requires
        0 <= k <= s,
        0 < s,
    ensures
        p <= q ==> p * s <= edge_num(p, q, k, s) <= q * s,
        q <= p ==> q * s <= edge_num(p, q, k, s) <= p * s,
        p <= q ==> p <= ceil_div(edge_num(p, q, k, s), s) <= q && p <= floor_div(
            edge_num(p, q, k, s),
            s,
        ) <= q,
        q <= p ==> q <= ceil_div(edge_num(p, q, k, s), s) <= p && q <= floor_div(
            edge_num(p, q, k, s),
            s,
        ) <= p,
{
    let n = edge_num(p, q, k, s);
    assert(p <= q ==> 0 <= (q - p) * k <= (q - p) * s) by (nonlinear_arith)
        requires
            0 <= k <= s,
    ;
    assert(q <= p ==> (q - p) * s <= (q - p) * k <= 0) by (nonlinear_arith)
        requires
            0 <= k <= s,
    ;
    assert(p * s + (q - p) * s == q * s) by (nonlinear_arith);
    let lo = if p <= q {
        p
    } else {
        q
    };
    let hi = if p <= q {
        q
    } else {
        p
    };
    lemma_floor_div(n, s, lo);
    lemma_floor_div(n, s, hi + 1);
    lemma_ceil_div(n, s, hi);
    lemma_ceil_div(n, s, lo - 1);
    assert((hi + 1) * s == hi * s + s) by (nonlinear_arith);
    assert((lo - 1) * s == lo * s - s) by (nonlinear_arith);
}

/// `num / den` rounded down.
fn floor_div_i128(num: i128, den: i128) -> (q: i128)
    requires
        0 < den,
        -0x1_0000_0000_0000_0000_0000 <= num <= 0x1_0000_0000_0000_0000_0000,
    ensures
        q == floor_div(num as int, den as int),
{
    if num >= 0 {
        num / den
    } else {
        let n: i128 = -num;
        let q: i128 = n / den;
        let r: i128 = n % den;
        proof {
            lemma_fundamental_div_mod(n as int, den as int);
            assert(den * q == q * den) by (nonlinear_arith);
        }
        if r == 0 {
            proof {
                assert((-q) * den + 0 == num) by (nonlinear_arith)
                    requires
                        n == q * den,
                        num == -n,
                ;
                lemma_fundamental_div_mod_converse(num as int, den as int, -q, 0);
            }
            -q
        } else {
            proof {
                assert((-q - 1) * den + (den - r) == num) by (nonlinear_arith)
                    requires
                        n == q * den + r,
                        num == -n,
                ;
                lemma_fundamental_div_mod_converse(num as int, den as int, -q - 1, den - r);
            }
            -q - 1
        }
    }
}

/// `num / den` rounded up.
fn ceil_div_i128(num: i128, den: i128) -> (q: i128)
    requires
        0 < den,
        -0x1_0000_0000_0000_0000_0000 <= num <= 0x1_0000_0000_0000_0000_0000,
    ensures
        q == ceil_div(num as int, den as int),
{
    let down: i128 = floor_div_i128(-num, den);
    proof {
        let bound: int = 0x1_0000_0000_0000_0000_0000;
        lemma_floor_div(-(num as int), den as int, -bound - 1);
        lemma_floor_div(-(num as int), den as int, bound + 1);
        assert((-bound - 1) * den <= -bound - 1 && (bound + 1) * den >= bound + 1)
            by (nonlinear_arith)
            requires
                1 <= den,
                0 <= bound,
        ;
    }
    -down
}

/// The numerator of the place where an edge crosses a row.
fn edge_num_i128(p: i32, q: i32, k: i64, s: i64) -> (n: i128)
    requires
        0 <= k <= s,
        0 < s <= 0xFFFF_FFFF,
    ensures
        n == edge_num(p as int, q as int, k as int, s as int),
        -0x1_0000_0000_0000_0000_0000 <= n <= 0x1_0000_0000_0000_0000_0000,
{
    let base: i128 = p as i128;
    let rise: i128 = q as i128 - p as i128;
    assert(-0x8000_0000 * 0xFFFF_FFFF <= base * s <= 0x8000_0000 * 0xFFFF_FFFF)
        by (nonlinear_arith)
        requires
            -0x8000_0000 <= base <= 0x8000_0000,
            0 < s <= 0xFFFF_FFFF,
    ;
    assert(-0x1_0000_0000 * 0xFFFF_FFFF <= rise * k <= 0x1_0000_0000 * 0xFFFF_FFFF)
        by (nonlinear_arith)
        requires
            -0x1_0000_0000 <= rise <= 0x1_0000_0000,
            0 <= k <= 0xFFFF_FFFF,
    ;
    base * s as i128 + rise * k as i128
}

/// The least column not left of the place where an edge crosses a row.
fn edge_first(p: i32, q: i32, k: i64, s: i64) -> (x: i32)
    requires
        0 <= k <= s,
        0 < s <= 0xFFFF_FFFF,
    ensures
        x == ceil_div(edge_num(p as int, q as int, k as int, s as int), s as int),
{
    proof {
        lemma_edge_between(p as int, q as int, k as int, s as int);
    }
    ceil_div_i128(edge_num_i128(p, q, k, s), s as i128) as i32
}

/// The greatest column not right of the place where an edge crosses a
/// row.
fn edge_last(p: i32, q: i32, k: i64, s: i64) -> (x: i32)
    requires
        0 <= k <= s,
        0 < s <= 0xFFFF_FFFF,
    ensures
        x == floor_div(edge_num(p as int, q as int, k as int, s as int), s as int),
{
    proof {
        lemma_edge_between(p as int, q as int, k as int, s as int);
    }
    floor_div_i128(edge_num_i128(p, q, k, s), s as i128) as i32
}

/// A corner of a triangle on screen: the pixel, the depth and the pixel of
/// the texture that belongs there.
#[derive(Debug, Clone, Copy, PartialEq, Eq, Structural)]
pub struct Vertex {
    pub x: i32,
    pub y: i32,
    pub z: i32,
    pub u: i32,
    pub v: i32,
}

impl Vertex {
    pub open spec fn of(t: Vec3i, uv: Vec2i) -> Vertex {
        Vertex { x: t.x, y: t.y, z: t.z, u: uv.x, v: uv.y }
    }

    pub fn new(t: Vec3i, uv: Vec2i) -> (r: Vertex)
        ensures
            r == Vertex::of(t, uv),
    {
        Vertex { x: t.x, y: t.y, z: t.z, u: uv.x, v: uv.y }
    }
}

/// What is interpolated along an edge and along a row: the column, the
/// depth and the texture pixel.
pub struct Sample {
    pub x: int,
    pub z: int,
    pub u: int,
    pub v: int,
}

/// The end of a row in column `x` on the edge from corner `p` to corner
/// `q`: depth and texture pixel are those `num / den` of the way from `p`
/// to `q`.
pub open spec fn lerp_corners(p: Vertex, q: Vertex, num: int, den: int, x: int) -> Sample {
    Sample {
        x,
        z: lerp(p.z as int, q.z as int, num, den),
        u: lerp(p.u as int, q.u as int, num, den),
        v: lerp(p.v as int, q.v as int, num, den),
    }
}

/// What column `x` gets between the row's ends `l` and `r`: the
/// values `(x - l.x) / (r.x - l.x)` of the way from `l` to `r`, and those
/// of `r` where the two are in one column.
pub open spec fn lerp_span(l: Sample, r: Sample, x: int) -> Sample {
    let num = if r.x == l.x {
        1
    } else {
        x - l.x
    };
    let den = if r.x == l.x {
        1
    } else {
        r.x - l.x
    };
    Sample {
        x,
        z: lerp(l.z, r.z, num, den),
        u: lerp(l.u, r.u, num, den),
        v: lerp(l.v, r.v, num, den),
    }
}

/// A `Sample` whose values fit 32 bits.
#[derive(Debug, Clone, Copy)]
pub struct Point {
    pub x: i32,
    pub z: i32,
    pub u: i32,
    pub v: i32,
}

impl View for Point {
    type V = Sample;

    open spec fn view(&self) -> Sample {
        Sample { x: self.x as int, z: self.z as int, u: self.u as int, v: self.v as int }
    }
}

pub(crate) fn edge_point(p: Vertex, q: Vertex, num: i64, den: i64, x: i32) -> (r: Point)
    requires
        0 <= num <= den,
        0 < den,
    ensures
        r@ == lerp_corners(p, q, num as int, den as int, x as int),
{
    Point {
        x,
        z: lerp_i32(p.z, q.z, num, den),
        u: lerp_i32(p.u, q.u, num, den),
        v: lerp_i32(p.v, q.v, num, den),
    }
}

pub(crate) fn span_point(l: Point, r: Point, x: i32) -> (p: Point)
    requires
        l.x <= x <= r.x,
    ensures
        p@ == lerp_span(l@, r@, x as int),
{
    let num: i64 = if r.x == l.x {
        1
    } else {
        x as i64 - l.x as i64
    };
    let den: i64 = if r.x == l.x {
        1
    } else {
        r.x as i64 - l.x as i64
    };
    Point {
        x,
        z: lerp_i32(l.z, r.z, num, den),
        u: lerp_i32(l.u, r.u, num, den),
        v: lerp_i32(l.v, r.v, num, den),
    }
}

/// Three corners.
#[derive(Debug, Clone, Copy, PartialEq, Eq, Structural)]
pub struct Triangle {
    pub a: Vertex,
    pub b: Vertex,
    pub c: Vertex,
}

impl Triangle {
    pub open spec fn of(t0: Vec3i, t1: Vec3i, t2: Vec3i, uv0: Vec2i, uv1: Vec2i, uv2: Vec2i) -> Triangle {
        Triangle { a: Vertex::of(t0, uv0), b: Vertex::of(t1, uv1), c: Vertex::of(t2, uv2) }
    }

    pub fn new(t0: Vec3i, t1: Vec3i, t2: Vec3i, uv0: Vec2i, uv1: Vec2i, uv2: Vec2i) -> (t: Triangle)
        ensures
            t == Triangle::of(t0, t1, t2, uv0, uv1, uv2),
    {
        Triangle { a: Vertex::new(t0, uv0), b: Vertex::new(t1, uv1), c: Vertex::new(t2, uv2) }
    }

    /// All three corners lie in one row.
    pub open spec fn degenerate(self) -> bool {
        self.a.y == self.b.y && self.a.y == self.c.y
    }

    /// The corners are in the order of their rows.
    pub open spec fn is_sorted(self) -> bool {
        self.a.y <= self.b.y <= self.c.y
    }

    /// The corners put in the order of their rows by exchanging, in turn,
    /// the first two, the first and the last, and the last two, each pair
    /// only if it is out of order.
    pub open spec fn sorted(self) -> Triangle {
        let s = if self.a.y > self.b.y {
            Triangle { a: self.b, b: self.a, c: self.c }
        } else {
            self
        };
        let s = if s.a.y > s.c.y {
            Triangle { a: s.c, b: s.b, c: s.a }
        } else {
            s
        };
        if s.b.y > s.c.y {
            Triangle { a: s.a, b: s.c, c: s.b }
        } else {
            s
        }
    }

    pub fn sort(self) -> (s: Triangle)
        ensures
            s == self.sorted(),
            s.is_sorted(),
            s.degenerate() == self.degenerate(),
    {
        let mut s = self;
        if s.a.y > s.b.y {
            s = Triangle { a: s.b, b: s.a, c: s.c };
        }
        if s.a.y > s.c.y {
            s = Triangle { a: s.c, b: s.b, c: s.a };
        }
        if s.b.y > s.c.y {
            s = Triangle { a: s.a, b: s.c, c: s.b };
        }
        s
    }

    /// Number of rows that are filled: from the first corner's row up to,
    /// not including, the last corner's.
    pub open spec fn rows(self) -> int {
        self.c.y - self.a.y
    }

    /// Row `i` is filled from the edge between the second and the third
    /// corner; the rows before it from the edge between the first two.
    pub open spec fn in_lower_part(self, i: int) -> bool {
        i > self.b.y - self.a.y || self.b.y == self.a.y
    }

    /// The corner where the short edge of row `i` begins.
    pub open spec fn short_from(self, i: int) -> Vertex {
        if self.in_lower_part(i) {
            self.b
        } else {
            self.a
        }
    }

    /// The corner where the short edge of row `i` ends.
    pub open spec fn short_to(self, i: int) -> Vertex {
        if self.in_lower_part(i) {
            self.c
        } else {
            self.b
        }
    }

    /// Which row of its short edge row `i` is.
    pub open spec fn short_step(self, i: int) -> int {
        if self.in_lower_part(i) {
            i - (self.b.y - self.a.y)
        } else {
            i
        }
    }

    /// Number of rows of the short edge of row `i`.
    pub open spec fn short_rows(self, i: int) -> int {
        if self.in_lower_part(i) {
            self.c.y - self.b.y
        } else {
            self.b.y - self.a.y
        }
    }

    /// The middle corner lies left of the edge from the first to the last
    /// corner, so the edges through it are the left ones.
    pub open spec fn middle_is_left(self) -> bool {
        self.doubled_area() > 0
    }

    /// The first column of row `i`: the least whole number that is not
    /// left of the exact place of the left edge.
    pub open spec fn first_column(self, i: int) -> int {
        if self.middle_is_left() {
            ceil_div(
                edge_num(
                    self.short_from(i).x as int,
                    self.short_to(i).x as int,
                    self.short_step(i),
                    self.short_rows(i),
                ),
                self.short_rows(i),
            )
        } else {
            ceil_div(edge_num(self.a.x as int, self.c.x as int, i, self.rows()), self.rows())
        }
    }

    /// The last column of row `i`: the greatest whole number that is not
    /// right of the exact place of the right edge.
    pub open spec fn last_column(self, i: int) -> int {
        if self.middle_is_left() {
            floor_div(edge_num(self.a.x as int, self.c.x as int, i, self.rows()), self.rows())
        } else {
            floor_div(
                edge_num(
                    self.short_from(i).x as int,
                    self.short_to(i).x as int,
                    self.short_step(i),
                    self.short_rows(i),
                ),
                self.short_rows(i),
            )
        }
    }

    /// The end of row `i` in column `x` on the edge from the first to
    /// the last corner.
    pub open spec fn long_end(self, i: int, x: int) -> Sample {
        lerp_corners(self.a, self.c, i, self.rows(), x)
    }

    /// The end of row `i` in column `x` on the edge through the middle
    /// corner.
    pub open spec fn short_end(self, i: int, x: int) -> Sample {
        lerp_corners(
            self.short_from(i),
            self.short_to(i),
            self.short_step(i),
            self.short_rows(i),
            x,
        )
    }

    /// The left end of row `i`: its first column, with what is
    /// interpolated along the left edge.
    pub open spec fn left(self, i: int) -> Sample {
        if self.middle_is_left() {
            self.short_end(i, self.first_column(i))
        } else {
            self.long_end(i, self.first_column(i))
        }
    }

    /// The right end of row `i`: its last column, with what is
    /// interpolated along the right edge.
    pub open spec fn right(self, i: int) -> Sample {
        if self.middle_is_left() {
            self.long_end(i, self.last_column(i))
        } else {
            self.short_end(i, self.last_column(i))
        }
    }

    /// Pixel `(x, y)` is filled: the triangle has an area, the pixel's
    /// row is one of the triangle's and its column lies between the first
    /// and the last of the row, both included. A row whose edges have no
    /// whole number between them is empty.
    pub open spec fn covers(self, x: int, y: int) -> bool {
        let i = y - self.a.y;
        self.doubled_area() != 0 && 0 <= i < self.rows() && self.left(i).x <= x <= self.right(
            i,
        ).x
    }

    /// Depth and texture pixel that the triangle brings to pixel `(x, y)`.
    pub open spec fn sample_at(self, x: int, y: int) -> Sample {
        let i = y - self.a.y;
        lerp_span(self.left(i), self.right(i), x)
    }

    /// Pixel `(x, y)` comes before row `i`, or in row `i` before column `j`.
    pub open spec fn before(self, i: int, j: int, x: int, y: int) -> bool {
        y - self.a.y < i || (y - self.a.y == i && x < j)
    }

    /// Sorting puts the corners in row order and keeps the triangle
    /// degenerate or not.
    pub proof fn lemma_sorted(self)
        ensures
            self.sorted().is_sorted(),
            self.sorted().degenerate() == self.degenerate(),
            self.degenerate() <==> self.sorted().rows() == 0,
    {
    }

    /// A triangle with all corners in one row covers no pixel.
    pub proof fn lemma_degenerate_covers_nothing(self, x: int, y: int)
        requires
            self.degenerate(),
        ensures
            !self.sorted().covers(x, y),
    {
    }

    /// What a sorted triangle brings to a covered pixel lies between the
    /// least and the greatest of its corners' values; so it fits 32 bits.
    pub proof fn lemma_sample_fits(self, x: int, y: int)
        requires
            self.is_sorted(),
            self.covers(x, y),
        ensures
            i32::MIN <= self.sample_at(x, y).z <= i32::MAX,
            i32::MIN <= self.sample_at(x, y).u <= i32::MAX,
            i32::MIN <= self.sample_at(x, y).v <= i32::MAX,
            i32::MIN <= self.left(y - self.a.y).x <= i32::MAX,
            i32::MIN <= self.right(y - self.a.y).x <= i32::MAX,
    {
        let i = y - self.a.y;
        self.lemma_edges_fit(i);
        let l = self.left(i);
        let r = self.right(i);
        if r.x == l.x {
            lemma_lerp_between(l.z, r.z, 1, 1);
            lemma_lerp_between(l.u, r.u, 1, 1);
            lemma_lerp_between(l.v, r.v, 1, 1);
        } else {
            lemma_lerp_between(l.z, r.z, x - l.x, r.x - l.x);
            lemma_lerp_between(l.u, r.u, x - l.x, r.x - l.x);
            lemma_lerp_between(l.v, r.v, x - l.x, r.x - l.x);
        }
    }

    /// Every pixel that a sorted triangle covers lies in one of its rows
    /// and between the least and the greatest column of its corners.
    pub proof fn lemma_covers_inside_box(self, x: int, y: int)
        requires
            self.is_sorted(),
            self.covers(x, y),
        ensures
            self.a.y <= y < self.c.y,
            least(self.a.x as int, self.b.x as int, self.c.x as int) <= x <= greatest(
                self.a.x as int,
                self.b.x as int,
                self.c.x as int,
            ),
    {
        self.lemma_edges_fit(y - self.a.y);
    }

    /// The depth that a sorted triangle brings to a covered pixel lies
    /// between the least and the greatest depth of its corners.
    pub proof fn lemma_depth_inside_range(self, x: int, y: int)
        requires
            self.is_sorted(),
            self.covers(x, y),
        ensures
            least(self.a.z as int, self.b.z as int, self.c.z as int) <= self.sample_at(x, y).z
                <= greatest(self.a.z as int, self.b.z as int, self.c.z as int),
    {
        let i = y - self.a.y;
        lemma_lerp_between(self.a.z as int, self.c.z as int, i, self.rows());
        lemma_lerp_between(
            self.short_from(i).z as int,
            self.short_to(i).z as int,
            self.short_step(i),
            self.short_rows(i),
        );
        let l = self.left(i);
        let r = self.right(i);
        if r.x == l.x {
            lemma_lerp_between(l.z, r.z, 1, 1);
        } else {
            lemma_lerp_between(l.z, r.z, x - l.x, r.x - l.x);
        }
    }

    /// The ends of a row of a sorted triangle fit 32 bits, and their
    /// columns lie between the least and the greatest column of the
    /// corners.
    pub proof fn lemma_edges_fit(self, i: int)
        requires
            self.is_sorted(),
            0 <= i < self.rows(),
        ensures
            0 <= self.short_step(i) <= self.short_rows(i),
            0 < self.short_rows(i),
            sample_fits(self.left(i)),
            sample_fits(self.right(i)),
            least(self.a.x as int, self.b.x as int, self.c.x as int) <= self.left(i).x,
            self.right(i).x <= greatest(self.a.x as int, self.b.x as int, self.c.x as int),
    {
        lemma_corners_between(self.a, self.c, i, self.rows(), 0);
        lemma_corners_between(
            self.short_from(i),
            self.short_to(i),
            self.short_step(i),
            self.short_rows(i),
            0,
        );
        lemma_edge_between(self.a.x as int, self.c.x as int, i, self.rows());
        lemma_edge_between(
            self.short_from(i).x as int,
            self.short_to(i).x as int,
            self.short_step(i),
            self.short_rows(i),
        );
    }

    /// Twice the area, with its sign.
    pub(crate) fn doubled(&self) -> (area: i128)
        ensures
            area == self.doubled_area(),
    {
        let cx: i128 = self.c.x as i128 - self.a.x as i128;
        let by: i128 = self.b.y as i128 - self.a.y as i128;
        let bx: i128 = self.b.x as i128 - self.a.x as i128;
        let cy: i128 = self.c.y as i128 - self.a.y as i128;
        assert(-0x1_0000_0000 * 0x1_0000_0000 <= cx * by <= 0x1_0000_0000 * 0x1_0000_0000)
            by (nonlinear_arith)
            requires
                -0x1_0000_0000 <= cx <= 0x1_0000_0000,
                -0x1_0000_0000 <= by <= 0x1_0000_0000,
        ;
        assert(-0x1_0000_0000 * 0x1_0000_0000 <= bx * cy <= 0x1_0000_0000 * 0x1_0000_0000)
            by (nonlinear_arith)
            requires
                -0x1_0000_0000 <= bx <= 0x1_0000_0000,
                -0x1_0000_0000 <= cy <= 0x1_0000_0000,
        ;
        cx * by - bx * cy
    }

    /// The two ends of row `i`, left one first.
    pub(crate) fn span(&self, i: i64, middle_left: bool) -> (ends: (Point, Point))
        requires
            self.is_sorted(),
            0 <= i < self.rows(),
            middle_left == self.middle_is_left(),
        ensures
            ends.0@ == self.left(i as int),
            ends.1@ == self.right(i as int),
    {
        proof {
            self.lemma_edges_fit(i as int);
        }
        let total: i64 = self.c.y as i64 - self.a.y as i64;
        let upper: i64 = self.b.y as i64 - self.a.y as i64;
        let second_half: bool = i > upper || self.b.y == self.a.y;
        let from: Vertex = if second_half {
            self.b
        } else {
            self.a
        };
        let to: Vertex = if second_half {
            self.c
        } else {
            self.b
        };
        let step: i64 = if second_half {
            i - upper
        } else {
            i
        };
        let rows: i64 = if second_half {
            self.c.y as i64 - self.b.y as i64
        } else {
            upper
        };
        if middle_left {
            (
                edge_point(from, to, step, rows, edge_first(from.x, to.x, step, rows)),
                edge_point(self.a, self.c, i, total, edge_last(self.a.x, self.c.x, i, total)),
            )
        } else {
            (
                edge_point(self.a, self.c, i, total, edge_first(self.a.x, self.c.x, i, total)),
                edge_point(from, to, step, rows, edge_last(from.x, to.x, step, rows)),
            )
        }
    }
}

/// The edge from the first to the last corner bounds the pixels on the
/// side of the middle corner: the weight of the middle corner, before its
/// sign is set, is how far the pixel lies from that edge.
proof fn lemma_long_edge_weight(ax: int, cx: int, x: int, dy: int, s: int)
    ensures
        (ax - x) * s - (cx - ax) * (-dy) == edge_num(ax, cx, dy, s) - x * s,
{
    assert((ax - x) * s - (cx - ax) * (-dy) == ax * s + (cx - ax) * dy - x * s)
        by (nonlinear_arith);
}

/// The same for the edge from the first to the middle corner and the
/// weight of the last corner.
proof fn lemma_upper_edge_weight(ax: int, bx: int, x: int, dy: int, q: int)
    ensures
        (bx - ax) * (-dy) - (ax - x) * q == x * q - edge_num(ax, bx, dy, q),
{
    assert((bx - ax) * (-dy) - (ax - x) * q == x * q - (ax * q + (bx - ax) * dy))
        by (nonlinear_arith);
}

/// The same for the edge from the middle to the last corner and the
/// weight of the first corner.
proof fn lemma_lower_edge_weight(ax: int, bx: int, cx: int, x: int, dy: int, q: int, s: int)
    ensures
        ((cx - ax) * q - (bx - ax) * s) - ((bx - ax) * (-dy) - (ax - x) * q) - ((ax - x) * s - (cx
            - ax) * (-dy)) == x * (s - q) - edge_num(bx, cx, dy - q, s - q),
{
    let p = bx - ax;
    let r = cx - ax;
    let dx = x - ax;
    assert(p * (-dy) - (-dx) * q == dx * q - p * dy) by (nonlinear_arith);
    assert((-dx) * s - r * (-dy) == r * dy - dx * s) by (nonlinear_arith);
    assert(x * (s - q) - (bx * (s - q) + (cx - bx) * (dy - q)) == (dx - p) * (s - q) - (r - p)
        * (dy - q)) by (nonlinear_arith)
        requires
            p == bx - ax,
            r == cx - ax,
            dx == x - ax,
    ;
    assert((dx - p) * (s - q) == dx * s - dx * q - p * s + p * q) by (nonlinear_arith);
    assert((r - p) * (dy - q) == r * dy - r * q - p * dy + p * q) by (nonlinear_arith);
}

/// In the rows above the middle corner a pixel on the right sides of the
/// two edges through the first corner is on the right side of the third.
proof fn lemma_upper_third(wa: int, wb: int, wc: int, dy: int, q: int, s: int)
    requires
        0 <= wb,
        0 <= wc,
        0 < wa + wb + wc,
        0 <= dy <= q <= s,
        0 < q,
        (wa + wb + wc) * dy == wb * q + wc * s,
    ensures
        0 <= wa,
{
    let sum = wa + wb + wc;
    assert(sum * dy <= sum * q) by (nonlinear_arith)
        requires
            0 < sum,
            dy <= q,
    ;
    assert(wc * q <= wc * s) by (nonlinear_arith)
        requires
            0 <= wc,
            q <= s,
    ;
    assert(sum * q == wa * q + wb * q + wc * q) by (nonlinear_arith)
        requires
            sum == wa + wb + wc,
    ;
    assert(0 <= wa) by (nonlinear_arith)
        requires
            0 <= wa * q,
            0 < q,
    ;
}

/// In the rows from the middle corner on a pixel on the right sides of
/// the two edges through the last corner is on the right side of the
/// third.
proof fn lemma_lower_third(wa: int, wb: int, wc: int, dy: int, q: int, s: int)
    requires
        0 <= wa,
        0 <= wb,
        0 <= q <= dy < s,
        (wa + wb + wc) * dy == wb * q + wc * s,
    ensures
        0 <= wc,
{
    assert((wa + wb + wc) * dy == wa * dy + wb * dy + wc * dy) by (nonlinear_arith);
    assert(wc * (s - dy) == wc * s - wc * dy) by (nonlinear_arith);
    assert(wb * (dy - q) == wb * dy - wb * q) by (nonlinear_arith);
    assert(0 <= wa * dy && 0 <= wb * (dy - q)) by (nonlinear_arith)
        requires
            0 <= wa,
            0 <= wb,
            0 <= q <= dy,
    ;
    assert(0 <= wc) by (nonlinear_arith)
        requires
            0 <= wc * (s - dy),
            0 < s - dy,
    ;
}

impl Triangle {
    /// In a row of a sorted triangle with an area, a column is not left
    /// of the first one exactly if the weight that belongs to the left
    /// edge is not negative, and not right of the last one exactly if the
    /// weight that belongs to the right edge is not negative. The weight
    /// of the middle corner belongs to the long edge; to the short edge
    /// belongs the weight of the last corner above the middle corner and
    /// that of the first corner from the middle corner on.
    pub proof fn lemma_columns_by_weights(self, x: int, y: int)
        requires
            self.is_sorted(),
            self.a.y <= y < self.c.y,
            self.doubled_area() != 0,
        ensures
            self.middle_is_left() ==> (x <= self.last_column(y - self.a.y) <==> self.weights(
                x,
                y,
            ).b >= 0),
            !self.middle_is_left() ==> (x >= self.first_column(y - self.a.y) <==> self.weights(
                x,
                y,
            ).b >= 0),
            self.middle_is_left() ==> (x >= self.first_column(y - self.a.y) <==> self.short_weight(
                x,
                y,
            ) >= 0),
            !self.middle_is_left() ==> (x <= self.last_column(y - self.a.y) <==> self.short_weight(
                x,
                y,
            ) >= 0),
    {
        let i = y - self.a.y;
        let q = self.b.y - self.a.y;
        let s = self.c.y - self.a.y;
        let ax = self.a.x as int;
        let bx = self.b.x as int;
        let cx = self.c.x as int;
        self.lemma_edges_fit(i);
        lemma_long_edge_weight(ax, cx, x, i, s);
        let long = edge_num(ax, cx, i, s);
        lemma_floor_div(long, s, x);
        lemma_ceil_div(long, s, x);
        let short = edge_num(
            self.short_from(i).x as int,
            self.short_to(i).x as int,
            self.short_step(i),
            self.short_rows(i),
        );
        lemma_floor_div(short, self.short_rows(i), x);
        lemma_ceil_div(short, self.short_rows(i), x);
        if self.in_lower_part(i) {
            lemma_lower_edge_weight(ax, bx, cx, x, i, q, s);
        } else {
            lemma_upper_edge_weight(ax, bx, x, i, q);
        }
    }

    /// The weight that belongs to the short edge of the row of `y`.
    pub open spec fn short_weight(self, x: int, y: int) -> int {
        if self.in_lower_part(y - self.a.y) {
            self.weights(x, y).a
        } else {
            self.weights(x, y).c
        }
    }

    /// Every pixel that a sorted triangle covers lies in the triangle or
    /// on its border: none of its barycentric weights is negative.
    pub proof fn lemma_covers_inside_triangle(self, x: int, y: int)
        requires
            self.is_sorted(),
            self.covers(x, y),
        ensures
            self.weights(x, y).inside(),
    {
        let i = y - self.a.y;
        let w = self.weights(x, y);
        self.lemma_columns_by_weights(x, y);
        self.lemma_weights_sum(x, y);
        self.lemma_weights_locate(x, y);
        if self.in_lower_part(i) {
            lemma_lower_third(w.a, w.b, w.c, i, self.b.y - self.a.y, self.c.y - self.a.y);
        } else {
            lemma_upper_third(w.a, w.b, w.c, i, self.b.y - self.a.y, self.c.y - self.a.y);
        }
    }

    /// The scanline fill covers exactly the pixels that pass the
    /// barycentric test, but for those in the row of the last corner.
    pub proof fn lemma_covers_is_holds(self, x: int, y: int)
        requires
            self.is_sorted(),
        ensures
            self.covers(x, y) <==> self.holds(x, y) && self.a.y <= y < self.c.y,
    {
        if self.covers(x, y) {
            self.lemma_covers_inside_triangle(x, y);
            self.lemma_inside_is_in_box(x, y);
        }
        if self.holds(x, y) && self.a.y <= y < self.c.y {
            self.lemma_inside_is_covered(x, y);
        }
    }

    /// Every pixel strictly inside a sorted triangle, with all its
    /// weights positive, lies in one of the triangle's rows and is
    /// covered.
    pub proof fn lemma_strictly_inside_is_covered(self, x: int, y: int)
        requires
            self.is_sorted(),
            self.weights(x, y).a > 0,
            self.weights(x, y).b > 0,
            self.weights(x, y).c > 0,
        ensures
            self.a.y <= y < self.c.y,
            self.covers(x, y),
    {
        let w = self.weights(x, y);
        let q = self.b.y - self.a.y;
        let s = self.c.y - self.a.y;
        let dy = y - self.a.y;
        self.lemma_weights_sum(x, y);
        self.lemma_weights_locate(x, y);
        assert(s > 0) by (nonlinear_arith)
            requires
                0 <= q <= s,
                self.doubled_area() != 0,
                self.doubled_area() == (self.c.x - self.a.x) * q - (self.b.x - self.a.x) * s,
        ;
        assert(0 <= w.b * q && 0 < w.c * s && 0 < w.a * s && 0 <= w.b * (s - q))
            by (nonlinear_arith)
            requires
                0 < w.a,
                0 < w.b,
                0 < w.c,
                0 <= q <= s,
                0 < s,
        ;
        assert(w.sum * (s - dy) == w.a * s + w.b * (s - q)) by (nonlinear_arith)
            requires
                w.sum * dy == w.b * q + w.c * s,
                w.sum == w.a + w.b + w.c,
        ;
        assert(0 < dy && dy < s) by (nonlinear_arith)
            requires
                0 < w.sum,
                0 < w.sum * dy,
                0 < w.sum * (s - dy),
        ;
        self.lemma_inside_is_covered(x, y);
    }

    /// Every pixel in a row of a sorted triangle that lies in the
    /// triangle or on its border is covered.
    pub proof fn lemma_inside_is_covered(self, x: int, y: int)
        requires
            self.is_sorted(),
            self.a.y <= y < self.c.y,
            self.weights(x, y).inside(),
        ensures
            self.covers(x, y),
    {
        self.lemma_columns_by_weights(x, y);
    }
}

/// The least of three numbers.
pub open spec fn least(a: int, b: int, c: int) -> int {
    if a <= b && a <= c {
        a
    } else if b <= c {
        b
    } else {
        c
    }
}

/// The greatest of three numbers.
pub open spec fn greatest(a: int, b: int, c: int) -> int {
    if a >= b && a >= c {
        a
    } else if b >= c {
        b
    } else {
        c
    }
}

/// All values of the sample fit 32 bits.
pub open spec fn sample_fits(s: Sample) -> bool {
    &&& i32::MIN <= s.x <= i32::MAX
    &&& i32::MIN <= s.z <= i32::MAX
    &&& i32::MIN <= s.u <= i32::MAX
    &&& i32::MIN <= s.v <= i32::MAX
}

proof fn lemma_corners_between(p: Vertex, q: Vertex, num: int, den: int, x: int)
    requires
        0 <= num <= den,
        0 < den,
    ensures
        i32::MIN <= lerp_corners(p, q, num, den, x).z <= i32::MAX,
        i32::MIN <= lerp_corners(p, q, num, den, x).u <= i32::MAX,
        i32::MIN <= lerp_corners(p, q, num, den, x).v <= i32::MAX,
{
    lemma_lerp_between(p.z as int, q.z as int, num, den);
    lemma_lerp_between(p.u as int, q.u as int, num, den);
    lemma_lerp_between(p.v as int, q.v as int, num, den);
}

} // verus!
