//! Buffers changed pixel by pixel: which pixels a drawing step touches is
//! given as a predicate on pixel coordinates, and what it writes there as
//! a function of them.
use crate::tga::Raster;
use vstd::arithmetic::div_mod::{lemma_fundamental_div_mod, lemma_fundamental_div_mod_converse};
use vstd::prelude::*;

verus! {

/// A set of pixels, as a predicate on `(x, y)`.
pub type Mask = spec_fn(int, int) -> bool;

/// Byte `b` of an image after the pixels of `mask` got the colours that
/// `color` gives: a byte of such a pixel holds the colour's channel of
/// the same number if the pixel stores that channel, every other byte is
/// as before.
pub open spec fn painted_byte(
    r: Raster,
    mask: Mask,
    color: spec_fn(int, int) -> Seq<u8>,
    b: int,
) -> u8 {
    let pixel = b / r.bpp;
    let channel = b % r.bpp;
    let x = pixel % r.width;
    let y = pixel / r.width;
    if r.bpp > 0 && r.width > 0 && mask(x, y) && channel < r.stored() {
        color(x, y)[channel]
    } else {
        r.data[b]
    }
}

/// The image after the pixels of `mask` got the colours that `color` gives.
pub open spec fn painted(r: Raster, mask: Mask, color: spec_fn(int, int) -> Seq<u8>) -> Raster {
    Raster { data: Seq::new(r.data.len(), |b: int| painted_byte(r, mask, color, b)), ..r }
}

/// Entry `k` of a depth buffer for rows of `width` pixels after the pixels
/// of `mask` got the depths that `z` gives.
pub open spec fn deepened_entry(
    depth: Seq<i32>,
    width: int,
    mask: Mask,
    z: spec_fn(int, int) -> int,
    k: int,
) -> i32 {
    if width > 0 && mask(k % width, k / width) {
        z(k % width, k / width) as i32
    } else {
        depth[k]
    }
}

/// The depth buffer after the pixels of `mask` got the depths that `z` gives.
pub open spec fn deepened(
    depth: Seq<i32>,
    width: int,
    mask: Mask,
    z: spec_fn(int, int) -> int,
) -> Seq<i32> {
    Seq::new(depth.len(), |k: int| deepened_entry(depth, width, mask, z, k))
}

/// Two masks hold the same pixels among those with `0 <= x < width` and
/// `0 <= y`.
pub open spec fn masks_agree(width: int, m1: Mask, m2: Mask) -> bool {
    forall|x: int, y: int|
        #![trigger m1(x, y)]
        #![trigger m2(x, y)]
        0 <= x < width && 0 <= y ==> m1(x, y) == m2(x, y)
}

/// `m2` holds the pixels of `m1` and `(x0, y0)`, among those with
/// `0 <= x < width` and `0 <= y`.
pub open spec fn mask_grows(width: int, m1: Mask, m2: Mask, x0: int, y0: int) -> bool {
    forall|x: int, y: int|
        #![trigger m1(x, y)]
        #![trigger m2(x, y)]
        0 <= x < width && 0 <= y ==> m2(x, y) == (m1(x, y) || (x == x0 && y == y0))
}

/// No pixel with `0 <= x < width` and `0 <= y` is in the mask.
pub open spec fn mask_empty(width: int, m: Mask) -> bool {
    forall|x: int, y: int| 0 <= x < width && 0 <= y ==> !#[trigger] m(x, y)
}

/// Pixel number `x + y * width` is the pixel in column `x` of row `y`.
pub proof fn lemma_pixel_coordinates(width: int, x: int, y: int)
    requires
        0 <= x < width,
    ensures
        (x + y * width) % width == x,
        (x + y * width) / width == y,
{
    lemma_fundamental_div_mod_converse(x + y * width, width, y, x);
}

/// Every pixel number of a row-major buffer is `x + y * width` for its
/// column `x` and row `y`, and the row is not negative.
pub proof fn lemma_pixel_number(width: int, k: int)
    requires
        0 < width,
        0 <= k,
    ensures
        k == k % width + (k / width) * width,
        0 <= k % width < width,
        0 <= k / width,
{
    lemma_fundamental_div_mod(k, width);
    assert(width * (k / width) == (k / width) * width) by (nonlinear_arith);
    assert(0 <= k / width) by (nonlinear_arith)
        requires
            0 < width,
            0 <= k,
    ;
}

/// Byte `b` belongs to pixel `k` exactly if it lies in the `bpp` bytes
/// from `k * bpp` on, and is then channel `b - k * bpp`.
pub proof fn lemma_byte_of_pixel(bpp: int, k: int, b: int)
    requires
        0 < bpp,
    ensures
        b / bpp == k <==> k * bpp <= b < k * bpp + bpp,
        b / bpp == k ==> b % bpp == b - k * bpp,
{
    lemma_fundamental_div_mod(b, bpp);
    assert(bpp * (b / bpp) == (b / bpp) * bpp) by (nonlinear_arith);
    if k * bpp <= b < k * bpp + bpp {
        lemma_fundamental_div_mod_converse(b, bpp, k, b - k * bpp);
    }
}

/// Painting no pixel leaves the image as it was.
pub proof fn lemma_paint_none(r: Raster, mask: Mask, color: spec_fn(int, int) -> Seq<u8>)
    requires
        mask_empty(r.width, mask),
    ensures
        painted(r, mask, color) == r,
{
    assert forall|b: int| 0 <= b < r.data.len() implies painted_byte(r, mask, color, b)
        == r.data[b] by {
        if r.bpp > 0 && r.width > 0 {
            let k = b / r.bpp;
            lemma_fundamental_div_mod(b, r.bpp);
            assert(0 <= k) by (nonlinear_arith)
                requires
                    0 < r.bpp,
                    0 <= b,
                    k == b / r.bpp,
            ;
            lemma_pixel_number(r.width, k);
        }
    }
    assert(painted(r, mask, color).data =~= r.data);
}

/// Masks with the same pixels paint the same image.
pub proof fn lemma_paint_same(r: Raster, m1: Mask, m2: Mask, color: spec_fn(int, int) -> Seq<u8>)
    requires
        masks_agree(r.width, m1, m2),
    ensures
        painted(r, m1, color) == painted(r, m2, color),
{
    assert forall|b: int| 0 <= b < r.data.len() implies painted_byte(r, m1, color, b)
        == painted_byte(r, m2, color, b) by {
        if r.bpp > 0 && r.width > 0 {
            let k = b / r.bpp;
            assert(0 <= k) by (nonlinear_arith)
                requires
                    0 < r.bpp,
                    0 <= b,
                    k == b / r.bpp,
            ;
            lemma_pixel_number(r.width, k);
        }
    }
    assert(painted(r, m1, color).data =~= painted(r, m2, color).data);
}

/// Writing one more pixel's colour into a painted image gives the image
/// painted through the mask with that pixel added.
pub proof fn lemma_paint_step(
    r: Raster,
    m1: Mask,
    m2: Mask,
    color: spec_fn(int, int) -> Seq<u8>,
    x0: int,
    y0: int,
)
    requires
        r.wf(),
        r.contains(x0, y0),
        mask_grows(r.width, m1, m2, x0, y0),
    ensures
        painted(r, m1, color).put(x0, y0, color(x0, y0)) == painted(r, m2, color),
{
    let before = painted(r, m1, color);
    let after = before.put(x0, y0, color(x0, y0));
    let goal = painted(r, m2, color);
    let k0 = x0 + y0 * r.width;
    let at = before.offset(x0, y0);
    r.lemma_contained(x0, y0);
    lemma_pixel_coordinates(r.width, x0, y0);
    assert forall|b: int| 0 <= b < r.data.len() implies after.data[b] == goal.data[b] by {
        if r.bpp > 0 {
            let k = b / r.bpp;
            assert(0 <= k) by (nonlinear_arith)
                requires
                    0 < r.bpp,
                    0 <= b,
                    k == b / r.bpp,
            ;
            lemma_pixel_number(r.width, k);
            lemma_byte_of_pixel(r.bpp, k0, b);
            if k == k0 {
                assert(m2(x0, y0));
            } else {
                assert(k % r.width != x0 || k / r.width != y0);
            }
        }
    }
    assert(after.data =~= goal.data);
}

/// Masks with the same pixels deepen a buffer alike.
pub proof fn lemma_deepen_same(
    depth: Seq<i32>,
    width: int,
    m1: Mask,
    m2: Mask,
    z: spec_fn(int, int) -> int,
)
    requires
        masks_agree(width, m1, m2),
    ensures
        deepened(depth, width, m1, z) == deepened(depth, width, m2, z),
{
    assert forall|k: int| 0 <= k < depth.len() implies deepened_entry(depth, width, m1, z, k)
        == deepened_entry(depth, width, m2, z, k) by {
        if width > 0 {
            lemma_pixel_number(width, k);
        }
    }
    assert(deepened(depth, width, m1, z) =~= deepened(depth, width, m2, z));
}

/// Deepening no pixel leaves the buffer as it was.
pub proof fn lemma_deepen_none(depth: Seq<i32>, width: int, mask: Mask, z: spec_fn(int, int) -> int)
    requires
        mask_empty(width, mask),
    ensures
        deepened(depth, width, mask, z) == depth,
{
    assert forall|k: int| 0 <= k < depth.len() implies deepened_entry(depth, width, mask, z, k)
        == depth[k] by {
        if width > 0 {
            lemma_pixel_number(width, k);
        }
    }
    assert(deepened(depth, width, mask, z) =~= depth);
}

/// Writing one more pixel's depth into a deepened buffer gives the buffer
/// deepened through the mask with that pixel added.
pub proof fn lemma_deepen_step(
    depth: Seq<i32>,
    width: int,
    m1: Mask,
    m2: Mask,
    z: spec_fn(int, int) -> int,
    x0: int,
    y0: int,
)
    requires
        0 <= x0 < width,
        0 <= y0,
        x0 + y0 * width < depth.len(),
        mask_grows(width, m1, m2, x0, y0),
    ensures
        deepened(depth, width, m1, z).update(x0 + y0 * width, z(x0, y0) as i32) == deepened(
            depth,
            width,
            m2,
            z,
        ),
{
    let k0 = x0 + y0 * width;
    let after = deepened(depth, width, m1, z).update(k0, z(x0, y0) as i32);
    let goal = deepened(depth, width, m2, z);
    lemma_pixel_coordinates(width, x0, y0);
    assert forall|k: int| 0 <= k < depth.len() implies after[k] == goal[k] by {
        lemma_pixel_number(width, k);
        if k == k0 {
            assert(m2(x0, y0));
        } else {
            assert(k % width != x0 || k / width != y0);
        }
    }
    assert(after =~= goal);
}

/// The entry of a deepened buffer for the pixel in column `x` of row `y`.
pub proof fn lemma_deepened_at(
    depth: Seq<i32>,
    width: int,
    mask: Mask,
    z: spec_fn(int, int) -> int,
    x: int,
    y: int,
)
    requires
        0 <= x < width,
        0 <= y,
        x + y * width < depth.len(),
    ensures
        0 <= x + y * width,
        deepened(depth, width, mask, z)[x + y * width] == (if mask(x, y) {
            z(x, y) as i32
        } else {
            depth[x + y * width]
        }),
{
    lemma_pixel_coordinates(width, x, y);
    assert(0 <= y * width) by (nonlinear_arith)
        requires
            0 <= y,
            0 < width,
    ;
}

} // verus!
