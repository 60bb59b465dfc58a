//! Lines and triangles drawn into an image; triangles go through a depth
//! buffer so that the nearest one stays visible.
//!
//! Triangles are filled by scanlines. The rows run from the least row of
//! the three corners up to, but not including, the greatest. In each row
//! the columns are the whole numbers between the exact places of the
//! two edges, so every pixel that is filled lies in the triangle or on
//! its border; a triangle without area fills nothing. Depth and texture
//! pixel are interpolated along the edges and along the row, rounded
//! toward zero. A pixel is written only where the triangle is
//! strictly nearer than what the depth buffer holds, so of two triangles
//! with the same depth at a pixel the one drawn first stays.
//!
//! The module `bary` fills triangles the other way, by barycentric
//! coordinates: there a pixel belongs to the triangle if none of its
//! weights is negative, the border included on every side.
use crate::geometry::{Vec2, Vec2i, Vec3i};
use crate::model::{texel, Model};
use crate::raster::mask::{
    deepened, lemma_deepen_none, lemma_deepen_same, lemma_deepen_step, lemma_deepened_at,
    lemma_paint_none, lemma_paint_same, lemma_paint_step, mask_empty, mask_grows, masks_agree,
    painted, Mask,
};
use crate::raster::scan::{span_point, Point, Sample, Triangle};
use crate::tga::{Raster, TGAColor, TGAImage};
use vstd::prelude::*;

pub mod bary;
pub mod laws;
pub mod line;
pub mod mask;
pub mod scan;

verus! {

/// The raw value of full light: intensities are counted in 65536ths.
pub const FULL_LIGHT: i32 = 65536;

/// How much light falls on a face, in 65536ths: `FULL_LIGHT` leaves a
/// colour as it is, half of it halves every channel, and nothing is lit
/// at zero or below.
#[derive(Debug, Clone, Copy, PartialEq, Eq, Structural)]
pub struct Intensity {
    pub raw: i32,
}

/// A colour channel under light of `raw` 65536ths: the product rounded
/// down, at most 255, and 0 without light.
pub open spec fn scaled(channel: u8, raw: int) -> u8 {
    if raw <= 0 {
        0u8
    } else if channel * raw / 65536 > 255 {
        255u8
    } else {
        (channel * raw / 65536) as u8
    }
}

/// A texture colour under light: blue, green and red scaled, alpha full.
pub open spec fn lit(texel: Seq<u8>, raw: int) -> Seq<u8> {
    seq![scaled(texel[0], raw), scaled(texel[1], raw), scaled(texel[2], raw), 255u8]
}

/// The gray of a face without texture under light: white scaled, in
/// every colour channel.
pub open spec fn gray(raw: int) -> Seq<u8> {
    seq![scaled(255, raw), scaled(255, raw), scaled(255, raw), 255u8]
}

impl Intensity {
    pub fn new(raw: i32) -> (i: Self)
        ensures
            i.raw == raw,
    {
        Intensity { raw }
    }

    /// Whether any light falls on the face: faces without light are not
    /// drawn.
    pub fn is_lit(&self) -> (lit: bool)
        ensures
            lit == (self.raw > 0),
    {
        self.raw > 0
    }

    pub fn scale(&self, channel: u8) -> (r: u8)
        ensures
            r == scaled(channel, self.raw as int),
    {
        if self.raw <= 0 {
            return 0;
        }
        assert(0 <= channel * self.raw <= 255 * 0x7FFF_FFFF) by (nonlinear_arith)
            requires
                0 <= channel <= 255,
                0 < self.raw <= 0x7FFF_FFFF,
        ;
        let product: i64 = channel as i64 * self.raw as i64;
        let v: i64 = product / 65536;
        if v > 255 {
            255
        } else {
            v as u8
        }
    }

    /// The colour of an untextured face under this light.
    pub fn gray(&self) -> (c: TGAColor)
        ensures
            c@ == gray(self.raw as int),
            c.spec_bytespp() == 4,
    {
        let g: u8 = self.scale(255);
        TGAColor::from_rgb(g, g, g)
    }
}

/// Where the colours of a triangle's pixels come from.
pub enum Paint {
    /// Every pixel gets this colour.
    Flat(Seq<u8>),
    /// Every pixel gets the colour of its texture pixel, under light of
    /// so many 65536ths; black where the texture has no such pixel.
    Diffuse(Option<Raster>, int),
}

/// The colour that `paint` gives a pixel with the sample `s`.
pub open spec fn paint_color(paint: Paint, s: Sample) -> Seq<u8> {
    match paint {
        Paint::Flat(color) => color,
        Paint::Diffuse(texture, raw) => lit(texel(texture, s.u, s.v), raw),
    }
}

/// The paint of a face of a model under light of `raw` 65536ths: its
/// texture if one is bound, gray if not.
pub open spec fn face_paint(texture: Option<Raster>, raw: int) -> Paint {
    if texture is Some {
        Paint::Diffuse(texture, raw)
    } else {
        Paint::Flat(gray(raw))
    }
}

/// `Paint` for executable code.
enum Shading<'a, T> {
    Flat(TGAColor),
    Diffuse(&'a Model<T>, Intensity),
}

impl<'a, T: Copy> View for Shading<'a, T> {
    type V = Paint;

    closed spec fn view(&self) -> Paint {
        match self {
            Shading::Flat(color) => Paint::Flat(color@),
            Shading::Diffuse(model, intensity) => Paint::Diffuse(
                model.spec_texture(),
                intensity.raw as int,
            ),
        }
    }
}

/// An image and the depth buffer that goes with it. Entry `x + y * width`
/// of the buffer is the depth of what pixel `(x, y)` shows; greater is
/// nearer.
pub struct Frame {
    pub depth: Seq<i32>,
    pub image: Raster,
}

/// The depth that a triangle brings to each pixel.
pub open spec fn depth_of(tri: Triangle) -> spec_fn(int, int) -> int {
    |x: int, y: int| tri.sample_at(x, y).z
}

/// The colour that a triangle brings to each pixel.
pub open spec fn color_of(tri: Triangle, paint: Paint) -> spec_fn(int, int) -> Seq<u8> {
    |x: int, y: int| paint_color(paint, tri.sample_at(x, y))
}

impl Frame {
    /// The triangle, with its corners in row order, is seen at pixel
    /// `(x, y)`: the pixel is in the image and has a depth entry, the
    /// triangle covers it, and is strictly nearer there than what the
    /// frame holds.
    pub open spec fn shows(self, tri: Triangle, x: int, y: int) -> bool {
        &&& self.image.contains(x, y)
        &&& x + y * self.image.width < self.depth.len()
        &&& tri.covers(x, y)
        &&& self.depth[x + y * self.image.width] < tri.sample_at(x, y).z
    }

    /// The pixels where the triangle is seen.
    pub open spec fn shown(self, tri: Triangle) -> Mask {
        |x: int, y: int| self.shows(tri, x, y)
    }

    /// The pixels where the triangle is seen that come before column `j`
    /// of its row `i`.
    pub open spec fn shown_before(self, tri: Triangle, i: int, j: int) -> Mask {
        |x: int, y: int| self.shows(tri, x, y) && tri.before(i, j, x, y)
    }

    /// The frame after a triangle with its corners in row order was
    /// filled: where it is seen, the depth and the colour are its own;
    /// everywhere else the frame is as before.
    pub open spec fn filled(self, tri: Triangle, paint: Paint) -> Frame {
        Frame {
            depth: deepened(self.depth, self.image.width, self.shown(tri), depth_of(tri)),
            image: painted(self.image, self.shown(tri), color_of(tri, paint)),
        }
    }

    /// The frame while a triangle is being filled, just before column `j`
    /// of its row `i`.
    pub open spec fn filled_before(self, tri: Triangle, paint: Paint, i: int, j: int) -> Frame {
        Frame {
            depth: deepened(
                self.depth,
                self.image.width,
                self.shown_before(tri, i, j),
                depth_of(tri),
            ),
            image: painted(self.image, self.shown_before(tri, i, j), color_of(tri, paint)),
        }
    }

    /// The frame after a triangle was drawn: it is filled with its corners
    /// put in row order.
    pub open spec fn drawn(self, tri: Triangle, paint: Paint) -> Frame {
        self.filled(tri.sorted(), paint)
    }

    /// A triangle without area changes nothing.
    proof fn lemma_filled_nothing(self, tri: Triangle, paint: Paint)
        requires
            tri.doubled_area() == 0,
        ensures
            self.filled(tri, paint) == self,
    {
        let m = self.shown(tri);
        lemma_paint_none(self.image, m, color_of(tri, paint));
        lemma_deepen_none(self.depth, self.image.width, m, depth_of(tri));
    }

    /// Before its first row a triangle has changed nothing.
    proof fn lemma_filled_start(self, tri: Triangle, paint: Paint, j: int)
        requires
            tri.is_sorted(),
            0 < tri.rows() ==> j <= tri.left(0).x,
        ensures
            self.filled_before(tri, paint, 0, j) == self,
    {
        let m = self.shown_before(tri, 0, j);
        lemma_paint_none(self.image, m, color_of(tri, paint));
        lemma_deepen_none(self.depth, self.image.width, m, depth_of(tri));
    }

    /// Past the last column of a row is before the first column of the
    /// next row.
    proof fn lemma_filled_next_row(self, tri: Triangle, paint: Paint, i: int, j: int, j2: int)
        requires
            tri.is_sorted(),
            0 <= i < tri.rows(),
            j > tri.right(i).x,
            i + 1 < tri.rows() ==> j2 <= tri.left(i + 1).x,
        ensures
            self.filled_before(tri, paint, i, j) == self.filled_before(tri, paint, i + 1, j2),
    {
        let m1 = self.shown_before(tri, i, j);
        let m2 = self.shown_before(tri, i + 1, j2);
        lemma_paint_same(self.image, m1, m2, color_of(tri, paint));
        lemma_deepen_same(self.depth, self.image.width, m1, m2, depth_of(tri));
    }

    /// After its last row a triangle is filled.
    proof fn lemma_filled_end(self, tri: Triangle, paint: Paint, j: int)
        requires
            tri.is_sorted(),
        ensures
            self.filled_before(tri, paint, tri.rows(), j) == self.filled(tri, paint),
    {
        let m1 = self.shown_before(tri, tri.rows(), j);
        let m2 = self.shown(tri);
        lemma_paint_same(self.image, m1, m2, color_of(tri, paint));
        lemma_deepen_same(self.depth, self.image.width, m1, m2, depth_of(tri));
    }

    /// A pixel where the triangle is not seen, or that is no pixel of the
    /// frame, changes nothing.
    proof fn lemma_filled_skip(self, tri: Triangle, paint: Paint, i: int, j: int)
        requires
            !self.shows(tri, j, tri.a.y + i),
        ensures
            self.filled_before(tri, paint, i, j) == self.filled_before(tri, paint, i, j + 1),
    {
        let m1 = self.shown_before(tri, i, j);
        let m2 = self.shown_before(tri, i, j + 1);
        lemma_paint_same(self.image, m1, m2, color_of(tri, paint));
        lemma_deepen_same(self.depth, self.image.width, m1, m2, depth_of(tri));
    }

    /// While a triangle is being filled, the pixel that comes next still
    /// has the depth that it had before.
    proof fn lemma_filled_pending(self, tri: Triangle, paint: Paint, i: int, j: int)
        requires
            self.image.contains(j, tri.a.y + i),
            j + (tri.a.y + i) * self.image.width < self.depth.len(),
        ensures
            0 <= j + (tri.a.y + i) * self.image.width,
            self.filled_before(tri, paint, i, j).depth[j + (tri.a.y + i) * self.image.width]
                == self.depth[j + (tri.a.y + i) * self.image.width],
    {
        lemma_deepened_at(
            self.depth,
            self.image.width,
            self.shown_before(tri, i, j),
            depth_of(tri),
            j,
            tri.a.y + i,
        );
    }

    /// Writing the depth and the colour of a pixel where the triangle is
    /// seen takes the filling one column further.
    proof fn lemma_filled_step(self, tri: Triangle, paint: Paint, i: int, j: int)
        requires
            self.image.wf(),
            self.shows(tri, j, tri.a.y + i),
        ensures
            self.filled_before(tri, paint, i, j + 1) == (Frame {
                depth: self.filled_before(tri, paint, i, j).depth.update(
                    j + (tri.a.y + i) * self.image.width,
                    tri.sample_at(j, tri.a.y + i).z as i32,
                ),
                image: self.filled_before(tri, paint, i, j).image.put(
                    j,
                    tri.a.y + i,
                    paint_color(paint, tri.sample_at(j, tri.a.y + i)),
                ),
            }),
    {
        let y = tri.a.y + i;
        let m1 = self.shown_before(tri, i, j);
        let m2 = self.shown_before(tri, i, j + 1);
        lemma_paint_step(self.image, m1, m2, color_of(tri, paint), j, y);
        lemma_deepen_step(self.depth, self.image.width, m1, m2, depth_of(tri), j, y);
    }
}

/// The colour for a pixel with texture pixel `(u, v)`.
fn shade<T: Copy>(shading: &Shading<'_, T>, p: Point) -> (c: TGAColor)
    ensures
        c@ == paint_color(shading@, p@),
{
    match shading {
        Shading::Flat(color) => *color,
        Shading::Diffuse(model, intensity) => {
            let texel: TGAColor = model.diffuse(Vec2::new(p.u, p.v));
            proof {
                texel.lemma_four_channels();
            }
            let c = TGAColor::from_rgb(
                intensity.scale(texel[2]),
                intensity.scale(texel[1]),
                intensity.scale(texel[0]),
            );
            c
        },
    }
}

/// The frame that the two buffers make up.
pub open spec fn frame_of(zbuffer: Seq<i32>, image: Raster) -> Frame {
    Frame { depth: zbuffer, image }
}

/// Fills a triangle whose corners are in row order, row by row and in
/// each row from its first column to its last. A triangle without area
/// is left out.
fn fill<T: Copy>(
    tri: Triangle,
    zbuffer: &mut Vec<i32>,
    image: &mut TGAImage,
    shading: &Shading<'_, T>,
)
    requires
        tri.is_sorted(),
    ensures
        frame_of(final(zbuffer)@, final(image)@) == frame_of(old(zbuffer)@, old(image)@).filled(
            tri,
            shading@,
        ),
{
    let ghost frame = frame_of(zbuffer@, image@);
    let ghost paint = shading@;
    proof {
        use_type_invariant(&*image);
        image.lemma_inv();
    }
    let total: i64 = tri.c.y as i64 - tri.a.y as i64;
    let area: i128 = tri.doubled();
    if area == 0 {
        proof {
            frame.lemma_filled_nothing(tri, paint);
        }
        return ;
    }
    let middle_left: bool = area > 0;
    let width: i32 = image.width();
    let height: i32 = image.height();
    let mut i: i64 = 0;
    proof {
        if 0 < total {
            tri.lemma_edges_fit(0);
        }
        frame.lemma_filled_start(tri, paint, i32::MIN as int);
    }
    while i < total
        invariant
            0 <= i <= total,
            total == tri.rows(),
            tri.is_sorted(),
            middle_left == tri.middle_is_left(),
            tri.doubled_area() != 0,
            frame.image.wf(),
            width == frame.image.width,
            height == frame.image.height,
            paint == shading@,
            frame_of(zbuffer@, image@) == frame.filled_before(tri, paint, i as int, i32::MIN as int),
        decreases total - i,
    {
        let (l, r) = tri.span(i, middle_left);
        let y: i64 = tri.a.y as i64 + i;
        proof {
            tri.lemma_edges_fit(i as int);
            let m1 = frame.shown_before(tri, i as int, i32::MIN as int);
            let m2 = frame.shown_before(tri, i as int, l.x as int);
            lemma_paint_same(frame.image, m1, m2, color_of(tri, paint));
            lemma_deepen_same(frame.depth, frame.image.width, m1, m2, depth_of(tri));
        }
        let mut j: i64 = l.x as i64;
        while j <= r.x as i64
            invariant
                l.x <= j,
                j <= r.x + 1 || r.x < l.x,
                tri.doubled_area() != 0,
                0 <= i < total,
                total == tri.rows(),
                y == tri.a.y + i,
                tri.is_sorted(),
                l@ == tri.left(i as int),
                r@ == tri.right(i as int),
                frame.image.wf(),
                width == frame.image.width,
                height == frame.image.height,
                paint == shading@,
                frame_of(zbuffer@, image@) == frame.filled_before(tri, paint, i as int, j as int),
            decreases r.x + 1 - j,
        {
            let p: Point = span_point(l, r, j as i32);
            let ghost mut seen = false;
            if 0 <= j && j < width as i64 && 0 <= y && y < height as i64 {
                assert(y * width <= 0x8000_0000 * 0x8000_0000 && 0 <= y * width)
                    by (nonlinear_arith)
                    requires
                        0 <= y < 0x8000_0000,
                        0 <= width < 0x8000_0000,
                ;
                let idx: i64 = j + y * width as i64;
                if (idx as u64) < zbuffer.len() as u64 {
                    let at: usize = idx as usize;
                    proof {
                        frame.lemma_filled_pending(tri, paint, i as int, j as int);
                    }
                    if zbuffer[at] < p.z {
                        proof {
                            seen = true;
                            frame.lemma_filled_step(tri, paint, i as int, j as int);
                        }
                        zbuffer.set(at, p.z);
                        let color: TGAColor = shade(shading, p);
                        let _ = image.set(j as usize, y as usize, color);
                    }
                }
            }
            proof {
                if !seen {
                    frame.lemma_filled_skip(tri, paint, i as int, j as int);
                }
            }
            j += 1;
        }
        proof {
            if i + 1 < total {
                tri.lemma_edges_fit(i + 1);
            }
            frame.lemma_filled_next_row(tri, paint, i as int, j as int, i32::MIN as int);
        }
        i += 1;
    }
    proof {
        frame.lemma_filled_end(tri, paint, i32::MIN as int);
    }
}

/// Draws one face of a model by scanlines unless it faces away from the
/// light: with an intensity of zero or less nothing is written. Of a lit
/// face every pixel between the edges, row by row, that is strictly
/// nearer than what the depth buffer holds there gets its colour, and
/// its depth is recorded: the colour is the texture pixel's under
/// `intensity`, or gray under `intensity` where the model has no texture.
/// Pixels outside the image, or without an entry in the depth buffer,
/// are left out.
pub fn triangle_scanline<T: Copy>(
    t0: Vec3i,
    t1: Vec3i,
    t2: Vec3i,
    uv0: Vec2i,
    uv1: Vec2i,
    uv2: Vec2i,
    zbuffer: &mut Vec<i32>,
    image: &mut TGAImage,
    model: &Model<T>,
    intensity: Intensity,
)
    ensures
        intensity.raw <= 0 ==> final(zbuffer)@ == old(zbuffer)@ && final(image)@ == old(image)@,
        intensity.raw > 0 ==> frame_of(final(zbuffer)@, final(image)@) == frame_of(
            old(zbuffer)@,
            old(image)@,
        ).drawn(
            Triangle::of(t0, t1, t2, uv0, uv1, uv2),
            face_paint(model.spec_texture(), intensity.raw as int),
        ),
{
    if !intensity.is_lit() {
        return ;
    }
    let tri = Triangle::new(t0, t1, t2, uv0, uv1, uv2);
    match model.texture() {
        Some(_) => {
            draw(tri, zbuffer, image, &Shading::Diffuse(model, intensity));
        },
        None => {
            let shading: Shading<'_, T> = Shading::Flat(intensity.gray());
            draw(tri, zbuffer, image, &shading);
        },
    }
}

/// Draws a triangle in one colour by scanlines, through the depth
/// buffer.
pub fn triangle_flat(
    t0: Vec3i,
    t1: Vec3i,
    t2: Vec3i,
    zbuffer: &mut Vec<i32>,
    image: &mut TGAImage,
    color: TGAColor,
)
    ensures
        frame_of(final(zbuffer)@, final(image)@) == frame_of(old(zbuffer)@, old(image)@).drawn(
            Triangle::of(t0, t1, t2, Vec2 { x: 0, y: 0 }, Vec2 { x: 0, y: 0 }, Vec2 { x: 0, y: 0 }),
            Paint::Flat(color@),
        ),
{
    let zero: Vec2i = Vec2::new(0, 0);
    let tri = Triangle::new(t0, t1, t2, zero, zero, zero);
    let shading: Shading<'_, i32> = Shading::Flat(color);
    draw(tri, zbuffer, image, &shading);
}

/// Draws a triangle given in any corner order; one with all corners in a
/// single row is skipped.
fn draw<T: Copy>(
    tri: Triangle,
    zbuffer: &mut Vec<i32>,
    image: &mut TGAImage,
    shading: &Shading<'_, T>,
)
    ensures
        frame_of(final(zbuffer)@, final(image)@) == frame_of(old(zbuffer)@, old(image)@).drawn(
            tri,
            shading@,
        ),
{
    if tri.a.y == tri.b.y && tri.a.y == tri.c.y {
        proof {
            let frame = frame_of(zbuffer@, image@);
            tri.lemma_sorted();
            frame.lemma_filled_start(tri.sorted(), shading@, 0);
            frame.lemma_filled_end(tri.sorted(), shading@, 0);
        }
        return ;
    }
    fill(tri.sort(), zbuffer, image, shading);
}

} // verus!
