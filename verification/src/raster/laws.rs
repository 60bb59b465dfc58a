//! What holds of drawing triangles through the depth buffer.
use crate::raster::mask::{
    lemma_byte_of_pixel, lemma_deepened_at, lemma_pixel_coordinates,
    lemma_pixel_number,
};
use crate::raster::scan::Triangle;
use crate::raster::{paint_color, Frame, Paint};
use vstd::prelude::*;

verus! {

/// Wherever both triangles cover a pixel, they bring different depths.
pub open spec fn never_tied(a: Triangle, b: Triangle) -> bool {
    forall|x: int, y: int|
        #![trigger a.sorted().covers(x, y), b.sorted().covers(x, y)]
        a.sorted().covers(x, y) && b.sorted().covers(x, y) ==> a.sorted().sample_at(x, y).z
            != b.sorted().sample_at(x, y).z
}

/// A triangle whose three corners lie in one row changes nothing.
pub proof fn lemma_degenerate_draws_nothing(frame: Frame, tri: Triangle, paint: Paint)
    requires
        tri.degenerate(),
    ensures
        frame.drawn(tri, paint) == frame,
{
    tri.lemma_sorted();
    frame.lemma_filled_start(tri.sorted(), paint, 0);
    frame.lemma_filled_end(tri.sorted(), paint, 0);
}

/// What a pixel of the frame holds after a triangle was drawn: where the
/// triangle is seen, its depth and as many channels of its colour as a
/// pixel stores; elsewhere what was there before.
pub proof fn lemma_drawn_at(frame: Frame, tri: Triangle, paint: Paint, x: int, y: int, c: int)
    requires
        frame.image.wf(),
        frame.image.contains(x, y),
        x + y * frame.image.width < frame.depth.len(),
        0 <= c < frame.image.stored(),
    ensures
        0 <= x + y * frame.image.width,
        0 <= frame.image.offset(x, y) + c < frame.image.data.len(),
        frame.drawn(tri, paint).image.wf(),
        frame.drawn(tri, paint).image.width == frame.image.width,
        frame.drawn(tri, paint).image.height == frame.image.height,
        frame.drawn(tri, paint).image.bpp == frame.image.bpp,
        frame.drawn(tri, paint).depth.len() == frame.depth.len(),
        frame.drawn(tri, paint).depth[x + y * frame.image.width] == (if frame.shows(
            tri.sorted(),
            x,
            y,
        ) {
            tri.sorted().sample_at(x, y).z as i32
        } else {
            frame.depth[x + y * frame.image.width]
        }),
        frame.drawn(tri, paint).image.data[frame.image.offset(x, y) + c] == (if frame.shows(
            tri.sorted(),
            x,
            y,
        ) {
            paint_color(paint, tri.sorted().sample_at(x, y))[c]
        } else {
            frame.image.data[frame.image.offset(x, y) + c]
        }),
{
    let s = tri.sorted();
    let w = frame.image.width;
    let k = x + y * w;
    let b = frame.image.offset(x, y) + c;
    lemma_deepened_at(frame.depth, w, frame.shown(s), crate::raster::depth_of(s), x, y);
    frame.image.lemma_contained(x, y);
    lemma_pixel_coordinates(w, x, y);
    lemma_byte_of_pixel(frame.image.bpp, k, b);
}

/// A pixel outside the triangle, with a negative barycentric weight,
/// keeps its depth and its colour when the triangle is drawn.
pub proof fn lemma_outside_is_untouched(
    frame: Frame,
    tri: Triangle,
    paint: Paint,
    x: int,
    y: int,
    c: int,
)
    requires
        frame.image.wf(),
        frame.image.contains(x, y),
        x + y * frame.image.width < frame.depth.len(),
        0 <= c < frame.image.stored(),
        !tri.sorted().weights(x, y).inside(),
    ensures
        frame.drawn(tri, paint).depth[x + y * frame.image.width] == frame.depth[x + y
            * frame.image.width],
        frame.drawn(tri, paint).image.data[frame.image.offset(x, y) + c]
            == frame.image.data[frame.image.offset(x, y) + c],
{
    tri.lemma_sorted();
    if tri.sorted().covers(x, y) {
        tri.sorted().lemma_covers_inside_triangle(x, y);
    }
    lemma_drawn_at(frame, tri, paint, x, y, c);
}

/// A pixel strictly inside the triangle, with all its barycentric
/// weights positive, gets the triangle's depth and colour when the
/// triangle is drawn and is nearer there than what the frame held.
pub proof fn lemma_inside_is_drawn(
    frame: Frame,
    tri: Triangle,
    paint: Paint,
    x: int,
    y: int,
    c: int,
)
    requires
        frame.image.wf(),
        frame.image.contains(x, y),
        x + y * frame.image.width < frame.depth.len(),
        0 <= c < frame.image.stored(),
        tri.sorted().weights(x, y).a > 0,
        tri.sorted().weights(x, y).b > 0,
        tri.sorted().weights(x, y).c > 0,
        frame.depth[x + y * frame.image.width] < tri.sorted().sample_at(x, y).z,
    ensures
        frame.drawn(tri, paint).depth[x + y * frame.image.width] == tri.sorted().sample_at(x, y).z,
        frame.drawn(tri, paint).image.data[frame.image.offset(x, y) + c] == paint_color(
            paint,
            tri.sorted().sample_at(x, y),
        )[c],
{
    tri.lemma_sorted();
    tri.sorted().lemma_strictly_inside_is_covered(x, y);
    tri.sorted().lemma_sample_fits(x, y);
    lemma_drawn_at(frame, tri, paint, x, y, c);
}

/// Two triangles that are never tied in depth give the same frame in
/// either order.
pub proof fn lemma_draw_order(frame: Frame, a: Triangle, pa: Paint, b: Triangle, pb: Paint)
    requires
        frame.image.wf(),
        never_tied(a, b),
    ensures
        frame.drawn(a, pa).drawn(b, pb) == frame.drawn(b, pb).drawn(a, pa),
{
    let sa = a.sorted();
    let sb = b.sorted();
    a.lemma_sorted();
    b.lemma_sorted();
    let w = frame.image.width;
    let bpp = frame.image.bpp;
    let fa = frame.drawn(a, pa);
    let fb = frame.drawn(b, pb);
    let fab = fa.drawn(b, pb);
    let fba = fb.drawn(a, pa);
    assert forall|k: int| 0 <= k < frame.depth.len() implies fab.depth[k] == fba.depth[k] by {
        if w > 0 {
            lemma_pixel_number(w, k);
            let x = k % w;
            let y = k / w;
            lemma_pixel_at(frame, sa, sb, x, y);
        }
    }
    assert(fab.depth =~= fba.depth);
    assert forall|i: int| 0 <= i < frame.image.data.len() implies fab.image.data[i]
        == fba.image.data[i] by {
        if w > 0 && bpp > 0 {
            let k = i / bpp;
            assert(0 <= k) by (nonlinear_arith)
                requires
                    0 < bpp,
                    0 <= i,
                    k == i / bpp,
            ;
            lemma_pixel_number(w, k);
            let x = k % w;
            let y = k / w;
            if frame.image.contains(x, y) && x + y * w < frame.depth.len() {
                lemma_pixel_at(frame, sa, sb, x, y);
            }
        }
    }
    assert(fab.image.data =~= fba.image.data);
}

/// The depths of one pixel after each of two triangles was filled, and
/// that what either brings there fits the depth buffer's entries.
proof fn lemma_pixel_at(frame: Frame, sa: Triangle, sb: Triangle, x: int, y: int)
    requires
        sa.is_sorted(),
        sb.is_sorted(),
        0 <= x < frame.image.width,
        0 <= y,
        x + y * frame.image.width < frame.depth.len(),
    ensures
        sa.covers(x, y) ==> i32::MIN <= sa.sample_at(x, y).z <= i32::MAX,
        sb.covers(x, y) ==> i32::MIN <= sb.sample_at(x, y).z <= i32::MAX,
        deepened_at(frame, sa, x, y),
        deepened_at(frame, sb, x, y),
{
    if sa.covers(x, y) {
        sa.lemma_sample_fits(x, y);
    }
    if sb.covers(x, y) {
        sb.lemma_sample_fits(x, y);
    }
    let w = frame.image.width;
    lemma_deepened_at(frame.depth, w, frame.shown(sa), crate::raster::depth_of(sa), x, y);
    lemma_deepened_at(frame.depth, w, frame.shown(sb), crate::raster::depth_of(sb), x, y);
}

/// The depth entry of pixel `(x, y)` after `tri`, with its corners in
/// row order, was filled is the triangle's where it is seen and the old
/// one elsewhere.
pub open spec fn deepened_at(frame: Frame, tri: Triangle, x: int, y: int) -> bool {
    crate::raster::mask::deepened(
        frame.depth,
        frame.image.width,
        frame.shown(tri),
        crate::raster::depth_of(tri),
    )[x + y * frame.image.width] == (if frame.shows(tri, x, y) {
        tri.sample_at(x, y).z as i32
    } else {
        frame.depth[x + y * frame.image.width]
    })
}

/// Where the second of two triangles is strictly nearer than the first
/// and than what the frame held, the pixel shows the second: its depth
/// and its colour.
pub proof fn lemma_nearer_wins(
    frame: Frame,
    a: Triangle,
    pa: Paint,
    b: Triangle,
    pb: Paint,
    x: int,
    y: int,
    c: int,
)
    requires
        frame.image.wf(),
        frame.image.contains(x, y),
        x + y * frame.image.width < frame.depth.len(),
        0 <= c < frame.image.stored(),
        b.sorted().covers(x, y),
        frame.depth[x + y * frame.image.width] < b.sorted().sample_at(x, y).z,
        a.sorted().covers(x, y) ==> a.sorted().sample_at(x, y).z < b.sorted().sample_at(x, y).z,
    ensures
        frame.drawn(a, pa).drawn(b, pb).depth[x + y * frame.image.width] == b.sorted().sample_at(
            x,
            y,
        ).z,
        frame.drawn(a, pa).drawn(b, pb).image.data[frame.image.offset(x, y) + c] == paint_color(
            pb,
            b.sorted().sample_at(x, y),
        )[c],
{
    a.lemma_sorted();
    b.lemma_sorted();
    b.sorted().lemma_sample_fits(x, y);
    if a.sorted().covers(x, y) {
        a.sorted().lemma_sample_fits(x, y);
    }
    lemma_drawn_at(frame, a, pa, x, y, c);
    lemma_drawn_at(frame.drawn(a, pa), b, pb, x, y, c);
}

/// Where only the first of two triangles covers a pixel and is nearer
/// than what the frame held, the pixel shows the first after both were
/// drawn.
pub proof fn lemma_uncovered_stays(
    frame: Frame,
    a: Triangle,
    pa: Paint,
    b: Triangle,
    pb: Paint,
    x: int,
    y: int,
    c: int,
)
    requires
        frame.image.wf(),
        frame.image.contains(x, y),
        x + y * frame.image.width < frame.depth.len(),
        0 <= c < frame.image.stored(),
        a.sorted().covers(x, y),
        !b.sorted().covers(x, y),
        frame.depth[x + y * frame.image.width] < a.sorted().sample_at(x, y).z,
    ensures
        frame.drawn(a, pa).drawn(b, pb).depth[x + y * frame.image.width] == a.sorted().sample_at(
            x,
            y,
        ).z,
        frame.drawn(a, pa).drawn(b, pb).image.data[frame.image.offset(x, y) + c] == paint_color(
            pa,
            a.sorted().sample_at(x, y),
        )[c],
{
    a.lemma_sorted();
    a.sorted().lemma_sample_fits(x, y);
    lemma_drawn_at(frame, a, pa, x, y, c);
    lemma_drawn_at(frame.drawn(a, pa), b, pb, x, y, c);
}

/// Wherever both triangles pass the barycentric test, they bring
/// different depths.
pub open spec fn never_tied_by_weights(a: Triangle, b: Triangle) -> bool {
    forall|x: int, y: int|
        #![trigger a.holds(x, y), b.holds(x, y)]
        a.holds(x, y) && b.holds(x, y) ==> a.depth_at(x, y) != b.depth_at(x, y)
}

/// A triangle whose three corners lie in one row changes nothing when it
/// is drawn by the barycentric test: every pixel is skipped.
pub proof fn lemma_degenerate_rasters_nothing(frame: Frame, tri: Triangle, color: Seq<u8>)
    requires
        tri.degenerate(),
    ensures
        frame.rastered(tri, color) == frame,
{
    let m = frame.seen(tri);
    assert forall|x: int, y: int| !#[trigger] m(x, y) by {
        tri.lemma_flat_holds_nothing(x, y);
    }
    crate::raster::mask::lemma_paint_none(frame.image, m, crate::raster::line::uniform(color));
    crate::raster::mask::lemma_deepen_none(
        frame.depth,
        frame.image.width,
        m,
        crate::raster::bary::weighted_depth(tri),
    );
}

/// The depth entry of pixel `(x, y)` after `tri` was drawn by the
/// barycentric test is the triangle's where it is seen and the old one
/// elsewhere.
pub open spec fn rastered_at(frame: Frame, tri: Triangle, x: int, y: int) -> bool {
    crate::raster::mask::deepened(
        frame.depth,
        frame.image.width,
        frame.seen(tri),
        crate::raster::bary::weighted_depth(tri),
    )[x + y * frame.image.width] == (if frame.sees(tri, x, y) {
        tri.depth_at(x, y) as i32
    } else {
        frame.depth[x + y * frame.image.width]
    })
}

proof fn lemma_weighted_pixel_at(frame: Frame, a: Triangle, b: Triangle, x: int, y: int)
    requires
        0 <= x < frame.image.width,
        0 <= y,
        x + y * frame.image.width < frame.depth.len(),
    ensures
        a.holds(x, y) ==> i32::MIN <= a.depth_at(x, y) <= i32::MAX,
        b.holds(x, y) ==> i32::MIN <= b.depth_at(x, y) <= i32::MAX,
        rastered_at(frame, a, x, y),
        rastered_at(frame, b, x, y),
{
    if a.holds(x, y) {
        a.lemma_depth_between(x, y);
    }
    if b.holds(x, y) {
        b.lemma_depth_between(x, y);
    }
    let w = frame.image.width;
    lemma_deepened_at(frame.depth, w, frame.seen(a), crate::raster::bary::weighted_depth(a), x, y);
    lemma_deepened_at(frame.depth, w, frame.seen(b), crate::raster::bary::weighted_depth(b), x, y);
}

/// Two triangles that are never tied in depth give the same frame in
/// either order when they are drawn by the barycentric test.
pub proof fn lemma_raster_order(
    frame: Frame,
    a: Triangle,
    color_a: Seq<u8>,
    b: Triangle,
    color_b: Seq<u8>,
)
    requires
        frame.image.wf(),
        never_tied_by_weights(a, b),
    ensures
        frame.rastered(a, color_a).rastered(b, color_b) == frame.rastered(b, color_b).rastered(
            a,
            color_a,
        ),
{
    let w = frame.image.width;
    let bpp = frame.image.bpp;
    let fa = frame.rastered(a, color_a);
    let fb = frame.rastered(b, color_b);
    let fab = fa.rastered(b, color_b);
    let fba = fb.rastered(a, color_a);
    assert forall|k: int| 0 <= k < frame.depth.len() implies fab.depth[k] == fba.depth[k] by {
        if w > 0 {
            lemma_pixel_number(w, k);
            lemma_weighted_pixel_at(frame, a, b, k % w, k / w);
        }
    }
    assert(fab.depth =~= fba.depth);
    assert forall|i: int| 0 <= i < frame.image.data.len() implies fab.image.data[i]
        == fba.image.data[i] by {
        if w > 0 && bpp > 0 {
            let k = i / bpp;
            assert(0 <= k) by (nonlinear_arith)
                requires
                    0 < bpp,
                    0 <= i,
                    k == i / bpp,
            ;
            lemma_pixel_number(w, k);
            let x = k % w;
            let y = k / w;
            if frame.image.contains(x, y) && x + y * w < frame.depth.len() {
                lemma_weighted_pixel_at(frame, a, b, x, y);
            }
        }
    }
    assert(fab.image.data =~= fba.image.data);
}

} // verus!
