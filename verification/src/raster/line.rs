//! Straight lines, one pixel for every step along the longer axis.
use crate::geometry::Vec3i;
use crate::raster::mask::{
    lemma_paint_none, lemma_paint_same, lemma_paint_step, mask_empty, mask_grows, masks_agree,
    painted, Mask,
};
use crate::tga::{Raster, TGAColor, TGAImage};
use vstd::arithmetic::div_mod::lemma_fundamental_div_mod_converse;
use vstd::prelude::*;

verus! {

pub open spec fn abs(v: int) -> int {
    if v < 0 {
        -v
    } else {
        v
    }
}

/// The line from `a` to `b` spans more rows than columns; it is then
/// walked along `y`.
pub open spec fn steep(a: Vec3i, b: Vec3i) -> bool {
    abs(a.x - b.x) < abs(a.y - b.y)
}

/// A line in the coordinates it is walked in: `from..=to` along the
/// longer axis, and from `start` to `end` across it.
pub struct Walk {
    pub from: int,
    pub to: int,
    pub start: int,
    pub end: int,
}

impl Walk {
    /// The walk of the line from `a` to `b`, starting at the end with
    /// the smaller coordinate along the longer axis.
    pub open spec fn of(a: Vec3i, b: Vec3i) -> Walk {
        let w = if steep(a, b) {
            Walk { from: a.y as int, to: b.y as int, start: a.x as int, end: b.x as int }
        } else {
            Walk { from: a.x as int, to: b.x as int, start: a.y as int, end: b.y as int }
        };
        if w.from > w.to {
            Walk { from: w.to, to: w.from, start: w.end, end: w.start }
        } else {
            w
        }
    }

    /// How far across the line has moved after `k` steps along: the
    /// exact distance `|end - start| * k / (to - from)` rounded to the
    /// nearest whole number, a half rounded down.
    pub open spec fn across(self, k: int) -> int {
        let dx = self.to - self.from;
        if dx == 0 {
            0
        } else {
            (2 * abs(self.end - self.start) * k + dx - 1) / (2 * dx)
        }
    }

    /// The coordinate across after `k` steps along.
    pub open spec fn minor(self, k: int) -> int {
        if self.end > self.start {
            self.start + self.across(k)
        } else {
            self.start - self.across(k)
        }
    }
}

/// Pixel `(x, y)` is one of the line's.
pub open spec fn on_line(a: Vec3i, b: Vec3i, x: int, y: int) -> bool {
    let w = Walk::of(a, b);
    let major = if steep(a, b) {
        y
    } else {
        x
    };
    let minor = if steep(a, b) {
        x
    } else {
        y
    };
    w.from <= major <= w.to && minor == w.minor(major - w.from)
}

/// The step along the line at which pixel `(x, y)` would be drawn.
pub open spec fn step_of(a: Vec3i, b: Vec3i, x: int, y: int) -> int {
    if steep(a, b) {
        y - Walk::of(a, b).from
    } else {
        x - Walk::of(a, b).from
    }
}

/// The line's pixels that lie in the image.
pub open spec fn line_pixels(r: Raster, a: Vec3i, b: Vec3i) -> Mask {
    |x: int, y: int| r.contains(x, y) && on_line(a, b, x, y)
}

/// The line's pixels in the image that are drawn before step `k`.
pub open spec fn line_pixels_before(r: Raster, a: Vec3i, b: Vec3i, k: int) -> Mask {
    |x: int, y: int| r.contains(x, y) && on_line(a, b, x, y) && step_of(a, b, x, y) < k
}

/// One colour for every pixel.
pub open spec fn uniform(color: Seq<u8>) -> spec_fn(int, int) -> Seq<u8> {
    |x: int, y: int| color
}

fn abs_i64(v: i64) -> (r: i64)
    requires
        v > i64::MIN,
    ensures
        r == abs(v as int),
{
    if v < 0 {
        -v
    } else {
        v
    }
}

/// One step of the error term: the line has moved `n` across after `k`
/// steps along exactly if the error is what the steps leave over.
proof fn lemma_across(w: Walk, k: int, n: int, error: int)
    requires
        w.from < w.to,
        -(w.to - w.from) < error <= w.to - w.from,
        2 * (abs(w.end - w.start) * k) + (w.to - w.from) - 1 == n * (2 * (w.to - w.from)) + (error
            + (w.to - w.from) - 1),
    ensures
        w.across(k) == n,
{
    let dx = w.to - w.from;
    let a = abs(w.end - w.start);
    assert(2 * a * k == 2 * (a * k)) by (nonlinear_arith);
    lemma_fundamental_div_mod_converse(2 * a * k + dx - 1, 2 * dx, n, error + dx - 1);
}

/// Both ends of a line are among its pixels.
pub proof fn lemma_line_ends(a: Vec3i, b: Vec3i)
    ensures
        on_line(a, b, a.x as int, a.y as int),
        on_line(a, b, b.x as int, b.y as int),
{
    let w = Walk::of(a, b);
    let dx = w.to - w.from;
    let dy = abs(w.end - w.start);
    if dx > 0 {
        assert(2 * dy * 0 == 0) by (nonlinear_arith);
        lemma_fundamental_div_mod_converse(2 * dy * 0 + dx - 1, 2 * dx, 0, dx - 1);
        assert(2 * dy * dx + dx - 1 == dy * (2 * dx) + (dx - 1)) by (nonlinear_arith);
        lemma_fundamental_div_mod_converse(2 * dy * dx + dx - 1, 2 * dx, dy, dx - 1);
        assert(w.across(0) == 0);
        assert(w.across(dx) == dy);
    } else {
        assert(dy == 0);
    }
}

/// Draws the line from `a` to `b`: one pixel for each step along the
/// axis in which the ends lie further apart, at the nearest place across.
/// Pixels outside the image are left out.
pub fn line(a: Vec3i, b: Vec3i, image: &mut TGAImage, color: TGAColor)
    ensures
        final(image)@ == painted(old(image)@, line_pixels(old(image)@, a, b), uniform(color@)),
{
    let ghost frame = image@;
    proof {
        use_type_invariant(&*image);
        image.lemma_inv();
    }
    let ghost w = Walk::of(a, b);
    let ghost col = uniform(color@);
    let mut x0: i64 = a.x as i64;
    let mut y0: i64 = a.y as i64;
    let mut x1: i64 = b.x as i64;
    let mut y1: i64 = b.y as i64;
    let mut is_steep: bool = false;
    if abs_i64(x0 - x1) < abs_i64(y0 - y1) {
        let t0: i64 = x0;
        x0 = y0;
        y0 = t0;
        let t1: i64 = x1;
        x1 = y1;
        y1 = t1;
        is_steep = true;
    }
    if x0 > x1 {
        let tx: i64 = x0;
        x0 = x1;
        x1 = tx;
        let ty: i64 = y0;
        y0 = y1;
        y1 = ty;
    }
    assert(w == (Walk { from: x0 as int, to: x1 as int, start: y0 as int, end: y1 as int }));
    let dx: i64 = x1 - x0;
    let dy: i64 = y1 - y0;
    let derror: i64 = abs_i64(dy) * 2;
    let mut error: i64 = 0;
    let mut y: i64 = y0;
    let mut x: i64 = x0;
    let ghost mut n: int = 0;
    proof {
        assert(mask_empty(frame.width, line_pixels_before(frame, a, b, 0)));
        lemma_paint_none(frame, line_pixels_before(frame, a, b, 0), col);
        assert(abs(w.end - w.start) * 0 == 0) by (nonlinear_arith);
        assert(0 * (2 * (w.to - w.from)) == 0) by (nonlinear_arith);
    }
    while x <= x1
        invariant
            x0 <= x <= x1 + 1,
            -0x8000_0000 <= x0 <= x1 <= 0x7FFF_FFFF,
            -0x8000_0000 <= y0 <= 0x7FFF_FFFF,
            -0x8000_0000 <= y1 <= 0x7FFF_FFFF,
            dx == x1 - x0,
            dy == y1 - y0,
            derror == 2 * abs(dy as int),
            abs(dy as int) <= dx,
            is_steep == steep(a, b),
            w == Walk::of(a, b),
            w == (Walk { from: x0 as int, to: x1 as int, start: y0 as int, end: y1 as int }),
            col == uniform(color@),
            frame.wf(),
            frame.width <= i32::MAX,
            frame.height <= i32::MAX,
            0 <= n <= x - x0,
            y == (if y1 > y0 {
                y0 + n
            } else {
                y0 - n
            }),
            dx > 0 ==> -dx < error <= dx,
            dx == 0 ==> error == 0 && n == 0,
            2 * (abs(dy as int) * (x - x0)) + dx - 1 == n * (2 * dx) + (error + dx - 1),
            image@ == painted(frame, line_pixels_before(frame, a, b, x - x0), col),
        decreases x1 + 1 - x,
    {
        let ghost k = x - x0;
        proof {
            if dx > 0 {
                lemma_across(w, k, n, error as int);
            }
            assert(y == w.minor(k));
        }
        let px: i64 = if is_steep {
            y
        } else {
            x
        };
        let py: i64 = if is_steep {
            x
        } else {
            y
        };
        let ghost m1 = line_pixels_before(frame, a, b, k);
        let ghost m2 = line_pixels_before(frame, a, b, k + 1);
        proof {
            assert(on_line(a, b, px as int, py as int));
            assert(step_of(a, b, px as int, py as int) == k);
            if frame.contains(px as int, py as int) {
                assert(mask_grows(frame.width, m1, m2, px as int, py as int));
                lemma_paint_step(frame, m1, m2, col, px as int, py as int);
            } else {
                assert(masks_agree(frame.width, m1, m2));
                lemma_paint_same(frame, m1, m2, col);
            }
        }
        if 0 <= px && px <= 0x7FFF_FFFF && 0 <= py && py <= 0x7FFF_FFFF {
            let _ = image.set(px as usize, py as usize, color);
        }
        error += derror;
        proof {
            assert(abs(dy as int) * (k + 1) == abs(dy as int) * k + abs(dy as int))
                by (nonlinear_arith);
        }
        if error > dx {
            y += if y1 > y0 {
                1
            } else {
                -1
            };
            error -= dx * 2;
            proof {
                assert((n + 1) * (2 * dx) == n * (2 * dx) + 2 * dx) by (nonlinear_arith);
                n = n + 1;
            }
        }
        x += 1;
    }
    proof {
        let m1 = line_pixels_before(frame, a, b, x - x0);
        let m2 = line_pixels(frame, a, b);
        assert(masks_agree(frame.width, m1, m2));
        lemma_paint_same(frame, m1, m2, col);
    }
}

} // verus!
