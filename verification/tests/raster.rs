use tinyrenderer::geometry::{Vec2, Vec2i, Vec3, Vec3i};
use tinyrenderer::model::Model;
use tinyrenderer::raster::scan::Triangle;
use tinyrenderer::raster::{triangle_flat, triangle_scanline, Intensity, FULL_LIGHT};
use tinyrenderer::tga::{Format, TGAColor, TGAImage};

fn fresh_depth(n: usize) -> Vec<i32> {
    vec![i32::MIN; n]
}

fn pixel(img: &TGAImage, x: i32, y: i32) -> [u8; 4] {
    let c = img.get(x, y).unwrap();
    [c[0], c[1], c[2], c[3]]
}

fn bare_model() -> Model<f32> {
    Model::from_parts(Vec::new(), Vec::new(), Vec::new(), Vec::new())
}

/// A 16 by 16 texture whose pixel `(x, y)` is red `10 * x`, green
/// `10 * y`, blue `x + y`.
fn gradient_texture() -> TGAImage {
    let mut tex = TGAImage::new(16, 16, Format::RGB);
    for y in 0..16usize {
        for x in 0..16usize {
            let c = TGAColor::from_rgb((10 * x) as u8, (10 * y) as u8, (x + y) as u8);
            tex.set(x, y, c).unwrap();
        }
    }
    tex
}

fn textured_model() -> Model<f32> {
    let mut model = bare_model();
    model.load_texture(&gradient_texture().encode(false, true)).unwrap();
    model
}

fn zero() -> Vec2i {
    Vec2::new(0, 0)
}

/// Twice the signed area of the triangle `a`, `b`, `p`.
fn edge(a: (i64, i64), b: (i64, i64), p: (i64, i64)) -> i64 {
    (b.0 - a.0) * (p.1 - a.1) - (b.1 - a.1) * (p.0 - a.0)
}

fn strictly_inside(t: [(i64, i64); 3], p: (i64, i64)) -> bool {
    let e0 = edge(t[0], t[1], p);
    let e1 = edge(t[1], t[2], p);
    let e2 = edge(t[2], t[0], p);
    (e0 > 0 && e1 > 0 && e2 > 0) || (e0 < 0 && e1 < 0 && e2 < 0)
}

fn inside_or_on(t: [(i64, i64); 3], p: (i64, i64)) -> bool {
    let e0 = edge(t[0], t[1], p);
    let e1 = edge(t[1], t[2], p);
    let e2 = edge(t[2], t[0], p);
    (e0 >= 0 && e1 >= 0 && e2 >= 0) || (e0 <= 0 && e1 <= 0 && e2 <= 0)
}

/// Whether the scanline fill covers `p`: the triangle has an area, `p`
/// lies in it or on its border, and not in the row of its lowest corner.
fn filled(t: [(i64, i64); 3], p: (i64, i64)) -> bool {
    let top = t[0].1.min(t[1].1).min(t[2].1);
    let bottom = t[0].1.max(t[1].1).max(t[2].1);
    edge(t[0], t[1], t[2]) != 0 && inside_or_on(t, p) && top <= p.1 && p.1 < bottom
}

#[test]
fn intensity_scales_and_clamps() {
    assert_eq!(FULL_LIGHT, 65536);
    assert_eq!(Intensity::new(65536).scale(200), 200);
    assert_eq!(Intensity::new(32768).scale(200), 100);
    assert_eq!(Intensity::new(32768).scale(255), 127);
    assert_eq!(Intensity::new(21845).scale(3), 0);
    assert_eq!(Intensity::new(21846).scale(3), 1);
    assert_eq!(Intensity::new(131072).scale(200), 255);
    assert_eq!(Intensity::new(i32::MAX).scale(255), 255);
    assert_eq!(Intensity::new(0).scale(255), 0);
    assert_eq!(Intensity::new(-65536).scale(255), 0);
}

#[test]
fn light_of_zero_or_less_is_no_light() {
    assert!(Intensity::new(1).is_lit());
    assert!(Intensity::new(FULL_LIGHT).is_lit());
    assert!(!Intensity::new(0).is_lit());
    assert!(!Intensity::new(-1).is_lit());
    assert!(!Intensity::new(i32::MIN).is_lit());
}

#[test]
fn gray_is_white_under_the_light() {
    let c = Intensity::new(32768).gray();
    assert_eq!([c[0], c[1], c[2], c[3]], [127, 127, 127, 255]);
    let c = Intensity::new(FULL_LIGHT).gray();
    assert_eq!([c[0], c[1], c[2], c[3]], [255, 255, 255, 255]);
}

#[test]
fn sort_orders_corners_by_row() {
    let p = |y: i32| Vec3::new(y * 10, y, y * 100);
    let q = |y: i32| Vec2::new(y, -y);
    for ys in [[1, 2, 3], [1, 3, 2], [2, 1, 3], [2, 3, 1], [3, 1, 2], [3, 2, 1]] {
        let t = Triangle::new(p(ys[0]), p(ys[1]), p(ys[2]), q(ys[0]), q(ys[1]), q(ys[2]));
        let s = t.sort();
        assert_eq!((s.a.y, s.b.y, s.c.y), (1, 2, 3));
        assert_eq!((s.a.x, s.a.z, s.a.u, s.a.v), (10, 100, 1, -1));
        assert_eq!((s.c.x, s.c.z, s.c.u, s.c.v), (30, 300, 3, -3));
    }
}

#[test]
fn untextured_scanline_fills_the_inside_with_gray() {
    let mut image = TGAImage::new(200, 200, Format::RGB);
    let mut zbuffer = fresh_depth(200 * 200);
    let corners = [(10, 10), (100, 30), (50, 100)];
    triangle_scanline(
        Vec3::new(10, 10, 0),
        Vec3::new(100, 30, 0),
        Vec3::new(50, 100, 0),
        zero(),
        zero(),
        zero(),
        &mut zbuffer,
        &mut image,
        &bare_model(),
        Intensity::new(FULL_LIGHT / 2),
    );
    let mut inside = 0;
    for y in 0..200 {
        for x in 0..200 {
            let p = (x as i64, y as i64);
            if filled(corners, p) {
                if strictly_inside(corners, p) {
                    inside += 1;
                }
                assert_eq!(pixel(&image, x, y), [127, 127, 127, 0], "at {} {}", x, y);
                assert_eq!(zbuffer[(x + y * 200) as usize], 0);
            } else {
                assert_eq!(pixel(&image, x, y), [0, 0, 0, 0], "at {} {}", x, y);
                assert_eq!(zbuffer[(x + y * 200) as usize], i32::MIN);
            }
        }
    }
    for outside in [(5, 5), (99, 99), (150, 150), (10, 11), (100, 31), (50, 100)] {
        assert_eq!(pixel(&image, outside.0, outside.1), [0, 0, 0, 0]);
    }
    assert_eq!(pixel(&image, 50, 50), [127, 127, 127, 0]);
    assert_eq!(pixel(&image, 10, 10), [127, 127, 127, 0]);
    assert_eq!(pixel(&image, 100, 30), [127, 127, 127, 0]);
    assert!(inside > 3000);
}

#[test]
fn flat_triangle_takes_the_given_colour() {
    let mut image = TGAImage::new(200, 200, Format::RGBA);
    let mut zbuffer = fresh_depth(200 * 200);
    triangle_flat(
        Vec3::new(10, 10, 5),
        Vec3::new(100, 30, 5),
        Vec3::new(50, 100, 5),
        &mut zbuffer,
        &mut image,
        Intensity::new(FULL_LIGHT / 2).gray(),
    );
    assert_eq!(pixel(&image, 50, 50), [127, 127, 127, 255]);
    assert_eq!(zbuffer[50 + 50 * 200], 5);
    assert_eq!(pixel(&image, 5, 5), [0, 0, 0, 0]);
    assert_eq!(zbuffer[5 + 5 * 200], i32::MIN);
}

#[test]
fn depth_is_interpolated_exactly() {
    let mut image = TGAImage::new(16, 16, Format::RGB);
    let mut zbuffer = fresh_depth(16 * 16);
    triangle_flat(
        Vec3::new(0, 0, 0),
        Vec3::new(0, 10, 100),
        Vec3::new(10, 10, 200),
        &mut zbuffer,
        &mut image,
        TGAColor::from_rgb(1, 1, 1),
    );
    assert_eq!(zbuffer[0], 0);
    for y in 1..10 {
        for x in 0..16 {
            let z = zbuffer[(x + y * 16) as usize];
            if x <= y {
                assert_eq!(z, 10 * y + 10 * x, "at {} {}", x, y);
            } else {
                assert_eq!(z, i32::MIN);
            }
        }
    }
    for x in 0..16 {
        assert_eq!(zbuffer[x + 10 * 16], i32::MIN);
    }
}

#[test]
fn interpolation_rounds_toward_the_start() {
    let mut image = TGAImage::new(16, 16, Format::RGB);
    let mut zbuffer = fresh_depth(16 * 16);
    triangle_flat(
        Vec3::new(0, 0, 0),
        Vec3::new(0, 10, 100),
        Vec3::new(10, 10, 205),
        &mut zbuffer,
        &mut image,
        TGAColor::from_rgb(1, 1, 1),
    );
    assert_eq!(zbuffer[3 + 3 * 16], 61);
    assert_eq!(zbuffer[2 + 3 * 16], 50);
    assert_eq!(zbuffer[1 + 3 * 16], 40);
    assert_eq!(zbuffer[0 + 3 * 16], 30);
    let mut zbuffer = fresh_depth(16 * 16);
    triangle_flat(
        Vec3::new(0, 0, 0),
        Vec3::new(0, 10, -100),
        Vec3::new(10, 10, -205),
        &mut zbuffer,
        &mut image,
        TGAColor::from_rgb(1, 1, 1),
    );
    assert_eq!(zbuffer[3 + 3 * 16], -61);
    assert_eq!(zbuffer[2 + 3 * 16], -50);
}

#[test]
fn textured_triangle_takes_texture_pixels() {
    let model = textured_model();
    let mut image = TGAImage::new(16, 16, Format::RGBA);
    let mut zbuffer = fresh_depth(16 * 16);
    triangle_scanline(
        Vec3::new(0, 0, 1),
        Vec3::new(0, 10, 1),
        Vec3::new(10, 10, 1),
        Vec2::new(0, 0),
        Vec2::new(0, 10),
        Vec2::new(10, 10),
        &mut zbuffer,
        &mut image,
        &model,
        Intensity::new(FULL_LIGHT),
    );
    for y in 0..10 {
        for x in 0..16 {
            if x <= y {
                let expected = [(x + y) as u8, (10 * y) as u8, (10 * x) as u8, 255];
                assert_eq!(pixel(&image, x, y), expected, "at {} {}", x, y);
            } else {
                assert_eq!(pixel(&image, x, y), [0, 0, 0, 0]);
            }
        }
    }
}

#[test]
fn texture_colours_are_scaled_by_the_light() {
    let model = textured_model();
    let mut image = TGAImage::new(16, 16, Format::RGB);
    let mut zbuffer = fresh_depth(16 * 16);
    triangle_scanline(
        Vec3::new(0, 0, 1),
        Vec3::new(0, 10, 1),
        Vec3::new(10, 10, 1),
        Vec2::new(0, 0),
        Vec2::new(0, 10),
        Vec2::new(10, 10),
        &mut zbuffer,
        &mut image,
        &model,
        Intensity::new(FULL_LIGHT / 2),
    );
    assert_eq!(pixel(&image, 3, 7), [5, 35, 15, 0]);
    assert_eq!(pixel(&image, 5, 9), [7, 45, 25, 0]);
}

#[test]
fn texture_pixels_outside_the_texture_are_black() {
    let model = textured_model();
    let mut image = TGAImage::new(8, 8, Format::RGBA);
    let mut zbuffer = fresh_depth(64);
    triangle_scanline(
        Vec3::new(0, 0, 1),
        Vec3::new(0, 4, 1),
        Vec3::new(4, 4, 1),
        Vec2::new(100, 100),
        Vec2::new(100, 100),
        Vec2::new(100, 100),
        &mut zbuffer,
        &mut image,
        &model,
        Intensity::new(FULL_LIGHT),
    );
    assert_eq!(pixel(&image, 1, 2), [0, 0, 0, 255]);
}

#[test]
fn scanline_without_texture_draws_gray() {
    let mut image = TGAImage::new(8, 8, Format::RGBA);
    let mut zbuffer = fresh_depth(64);
    triangle_scanline(
        Vec3::new(0, 0, 1),
        Vec3::new(0, 4, 1),
        Vec3::new(4, 4, 1),
        zero(),
        zero(),
        zero(),
        &mut zbuffer,
        &mut image,
        &bare_model(),
        Intensity::new(FULL_LIGHT),
    );
    assert_eq!(pixel(&image, 1, 2), [255, 255, 255, 255]);
    assert_eq!(zbuffer[1 + 2 * 8], 1);
    let mut image = TGAImage::new(8, 8, Format::RGBA);
    let mut zbuffer = fresh_depth(64);
    triangle_scanline(
        Vec3::new(0, 0, 1),
        Vec3::new(0, 4, 1),
        Vec3::new(4, 4, 1),
        zero(),
        zero(),
        zero(),
        &mut zbuffer,
        &mut image,
        &bare_model(),
        Intensity::new(FULL_LIGHT / 4),
    );
    assert_eq!(pixel(&image, 1, 2), [63, 63, 63, 255]);
    assert_eq!(pixel(&image, 3, 2), [0, 0, 0, 0]);
}

#[test]
fn unlit_face_writes_nothing() {
    for raw in [0, -1, -65536, i32::MIN] {
        for model in [bare_model(), textured_model()] {
            let mut image = TGAImage::new(32, 32, Format::RGB);
            let mut zbuffer = fresh_depth(32 * 32);
            triangle_scanline(
                Vec3::new(1, 1, 7),
                Vec3::new(30, 5, 7),
                Vec3::new(10, 30, 7),
                Vec2::new(1, 1),
                Vec2::new(2, 2),
                Vec2::new(3, 3),
                &mut zbuffer,
                &mut image,
                &model,
                Intensity::new(raw),
            );
            assert_eq!(zbuffer, fresh_depth(32 * 32));
            for y in 0..32 {
                for x in 0..32 {
                    assert_eq!(pixel(&image, x, y), [0, 0, 0, 0]);
                }
            }
        }
    }
}

#[test]
fn triangle_in_one_row_writes_nothing() {
    let mut image = TGAImage::new(32, 32, Format::RGB);
    let mut zbuffer = fresh_depth(32 * 32);
    triangle_flat(
        Vec3::new(1, 9, 7),
        Vec3::new(30, 9, 7),
        Vec3::new(10, 9, 7),
        &mut zbuffer,
        &mut image,
        TGAColor::from_rgb(255, 255, 255),
    );
    triangle_scanline(
        Vec3::new(5, 3, 7),
        Vec3::new(5, 3, 7),
        Vec3::new(5, 3, 7),
        zero(),
        zero(),
        zero(),
        &mut zbuffer,
        &mut image,
        &bare_model(),
        Intensity::new(FULL_LIGHT),
    );
    assert_eq!(zbuffer, fresh_depth(32 * 32));
    assert_eq!(image.encode(false, false), TGAImage::new(32, 32, Format::RGB).encode(false, false));
}

fn draw_two(first_red: bool) -> (TGAImage, Vec<i32>) {
    let mut image = TGAImage::new(64, 64, Format::RGB);
    let mut zbuffer = fresh_depth(64 * 64);
    let red = TGAColor::from_rgb(255, 0, 0);
    let green = TGAColor::from_rgb(0, 255, 0);
    let far: [Vec3i; 3] = [Vec3::new(2, 2, 10), Vec3::new(60, 8, 10), Vec3::new(20, 60, 10)];
    let near: [Vec3i; 3] = [Vec3::new(40, 1, 50), Vec3::new(63, 50, 20), Vec3::new(5, 40, 30)];
    if first_red {
        triangle_flat(far[0], far[1], far[2], &mut zbuffer, &mut image, red);
        triangle_flat(near[0], near[1], near[2], &mut zbuffer, &mut image, green);
    } else {
        triangle_flat(near[0], near[1], near[2], &mut zbuffer, &mut image, green);
        triangle_flat(far[0], far[1], far[2], &mut zbuffer, &mut image, red);
    }
    (image, zbuffer)
}

#[test]
fn nearer_triangle_wins_in_either_order() {
    let (a, za) = draw_two(true);
    let (b, zb) = draw_two(false);
    assert_eq!(za, zb);
    assert_eq!(a.encode(false, false), b.encode(false, false));
    let far = [(2, 2), (60, 8), (20, 60)];
    let near = [(40, 1), (63, 50), (5, 40)];
    let mut overlap = 0;
    let mut only_far = 0;
    for y in 0..64 {
        for x in 0..64 {
            let p = (x as i64, y as i64);
            if filled(near, p) {
                assert_eq!(pixel(&a, x, y), [0, 255, 0, 0], "at {} {}", x, y);
                assert!(za[(x + y * 64) as usize] >= 20);
                if filled(far, p) {
                    overlap += 1;
                }
            } else if filled(far, p) {
                only_far += 1;
                assert_eq!(pixel(&a, x, y), [0, 0, 255, 0], "at {} {}", x, y);
                assert_eq!(za[(x + y * 64) as usize], 10);
            } else {
                assert_eq!(pixel(&a, x, y), [0, 0, 0, 0], "at {} {}", x, y);
                assert_eq!(za[(x + y * 64) as usize], i32::MIN);
            }
        }
    }
    assert!(overlap > 100);
    assert!(only_far > 100);
}

#[test]
fn equal_depth_keeps_the_first_drawn() {
    let mut image = TGAImage::new(16, 16, Format::RGB);
    let mut zbuffer = fresh_depth(256);
    let t: [Vec3i; 3] = [Vec3::new(0, 0, 3), Vec3::new(0, 10, 3), Vec3::new(10, 10, 3)];
    triangle_flat(t[0], t[1], t[2], &mut zbuffer, &mut image, TGAColor::from_rgb(255, 0, 0));
    triangle_flat(t[0], t[1], t[2], &mut zbuffer, &mut image, TGAColor::from_rgb(0, 255, 0));
    assert_eq!(pixel(&image, 2, 5), [0, 0, 255, 0]);
}

#[test]
fn farther_triangle_stays_hidden() {
    let mut image = TGAImage::new(16, 16, Format::RGB);
    let mut zbuffer = vec![100; 256];
    zbuffer[2 + 5 * 16] = 2;
    triangle_flat(
        Vec3::new(0, 0, 3),
        Vec3::new(0, 10, 3),
        Vec3::new(10, 10, 3),
        &mut zbuffer,
        &mut image,
        TGAColor::from_rgb(9, 9, 9),
    );
    assert_eq!(pixel(&image, 2, 5), [9, 9, 9, 0]);
    assert_eq!(zbuffer[2 + 5 * 16], 3);
    assert_eq!(pixel(&image, 2, 6), [0, 0, 0, 0]);
    assert_eq!(zbuffer[2 + 6 * 16], 100);
}

#[test]
fn pixels_outside_the_image_are_dropped() {
    let mut image = TGAImage::new(8, 8, Format::RGB);
    let mut zbuffer = fresh_depth(64);
    triangle_flat(
        Vec3::new(-3, -3, 1),
        Vec3::new(6, 1, 1),
        Vec3::new(1, 10, 1),
        &mut zbuffer,
        &mut image,
        TGAColor::from_rgb(7, 7, 7),
    );
    let corners = [(-3, -3), (6, 1), (1, 10)];
    let mut inside = 0;
    let mut outside = 0;
    for y in 0..8 {
        for x in 0..8 {
            let p = (x as i64, y as i64);
            if filled(corners, p) {
                inside += 1;
                assert_eq!(pixel(&image, x, y), [7, 7, 7, 0], "at {} {}", x, y);
                assert_eq!(zbuffer[(x + y * 8) as usize], 1);
            } else {
                outside += 1;
                assert_eq!(pixel(&image, x, y), [0, 0, 0, 0], "at {} {}", x, y);
                assert_eq!(zbuffer[(x + y * 8) as usize], i32::MIN);
            }
        }
    }
    assert!(inside > 10);
    assert!(outside > 10);
}

#[test]
fn pixels_without_a_depth_entry_are_dropped() {
    let mut image = TGAImage::new(8, 8, Format::RGB);
    let mut zbuffer = fresh_depth(20);
    triangle_flat(
        Vec3::new(0, 0, 1),
        Vec3::new(7, 0, 1),
        Vec3::new(0, 8, 1),
        &mut zbuffer,
        &mut image,
        TGAColor::from_rgb(7, 7, 7),
    );
    assert_eq!(pixel(&image, 1, 1), [7, 7, 7, 0]);
    assert_eq!(pixel(&image, 3, 2), [7, 7, 7, 0]);
    assert_eq!(pixel(&image, 4, 2), [0, 0, 0, 0]);
    assert_eq!(pixel(&image, 1, 3), [0, 0, 0, 0]);
}

#[test]
fn far_away_corners_do_not_overflow() {
    let mut image = TGAImage::new(4, 4, Format::RGB);
    let mut zbuffer = fresh_depth(16);
    triangle_flat(
        Vec3::new(0, 0, i32::MAX),
        Vec3::new(3, 0, i32::MIN + 1),
        Vec3::new(0, 3, i32::MAX),
        &mut zbuffer,
        &mut image,
        TGAColor::from_rgb(1, 2, 3),
    );
    assert_eq!(zbuffer[0], i32::MAX);
    assert_eq!(pixel(&image, 0, 0), [3, 2, 1, 0]);
    assert_eq!(pixel(&image, 0, 2), [3, 2, 1, 0]);
}

#[test]
fn scanline_covers_what_the_triangle_holds_for_many_triangles() {
    let mut state: u32 = 2024;
    let mut next = |span: i32| -> i32 {
        state = state.wrapping_mul(1103515245).wrapping_add(12345);
        ((state >> 16) % span as u32) as i32 - 4
    };
    for _ in 0..300 {
        let t = [(next(28), next(28)), (next(28), next(28)), (next(28), next(28))];
        let corners = [
            (t[0].0 as i64, t[0].1 as i64),
            (t[1].0 as i64, t[1].1 as i64),
            (t[2].0 as i64, t[2].1 as i64),
        ];
        let mut image = TGAImage::new(20, 20, Format::Grayscale);
        let mut zbuffer = fresh_depth(400);
        triangle_flat(
            Vec3::new(t[0].0, t[0].1, 1),
            Vec3::new(t[1].0, t[1].1, 1),
            Vec3::new(t[2].0, t[2].1, 1),
            &mut zbuffer,
            &mut image,
            TGAColor::from_rgb(0, 0, 9),
        );
        for y in 0..20 {
            for x in 0..20 {
                let expected = if filled(corners, (x as i64, y as i64)) { 9 } else { 0 };
                assert_eq!(pixel(&image, x, y)[0], expected, "{:?} at {} {}", t, x, y);
            }
        }
    }
}

#[test]
fn triangle_on_one_line_writes_nothing() {
    let mut image = TGAImage::new(16, 16, Format::RGB);
    let mut zbuffer = fresh_depth(256);
    triangle_flat(
        Vec3::new(0, 0, 1),
        Vec3::new(3, 3, 1),
        Vec3::new(9, 9, 1),
        &mut zbuffer,
        &mut image,
        TGAColor::from_rgb(7, 7, 7),
    );
    assert_eq!(zbuffer, fresh_depth(256));
    assert_eq!(image.encode(false, false), TGAImage::new(16, 16, Format::RGB).encode(false, false));
}
