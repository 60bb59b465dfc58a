use tinyrenderer::geometry::{Vec2, Vec2i, Vec3, Vec3i};

#[test]
fn vec2_components() {
    let mut v: Vec2i = Vec2::new(3, -4);
    assert_eq!(v.get(0), 3);
    assert_eq!(v.get(1), -4);
    assert_eq!(*v.x(), 3);
    assert_eq!(*v.y(), -4);
    v.set(0, 10);
    assert_eq!(v, Vec2 { x: 10, y: -4 });
    v.set(1, 20);
    assert_eq!(v, Vec2 { x: 10, y: 20 });
}

#[test]
fn vec2_sum_and_difference() {
    let a: Vec2i = Vec2::new(1, 2);
    let b: Vec2i = Vec2::new(10, 20);
    assert_eq!(a + b, Vec2::new(11, 22));
    assert_eq!(a - b, Vec2::new(-9, -18));
}

#[test]
fn vec3_components() {
    let v: Vec3i = Vec3::new(1, 2, 3);
    assert_eq!(v.get(0), 1);
    assert_eq!(v.get(1), 2);
    assert_eq!(v.get(2), 3);
}

#[test]
fn vec3_sum_difference_and_scaling() {
    let a: Vec3i = Vec3::new(1, 2, 3);
    let b: Vec3i = Vec3::new(10, 20, 30);
    assert_eq!(a + b, Vec3::new(11, 22, 33));
    assert_eq!(b - a, Vec3::new(9, 18, 27));
    assert_eq!(a * 3, Vec3::new(3, 6, 9));
}

#[test]
fn vec3_dot_product() {
    let a: Vec3i = Vec3::new(1, 2, 3);
    let b: Vec3i = Vec3::new(4, -5, 6);
    assert_eq!(a * b, 4 - 10 + 18);
}

#[test]
fn vec3_cross_product_is_right_handed() {
    let x: Vec3i = Vec3::new(1, 0, 0);
    let y: Vec3i = Vec3::new(0, 1, 0);
    let z: Vec3i = Vec3::new(0, 0, 1);
    assert_eq!(x.cross(y), z);
    assert_eq!(y.cross(z), x);
    assert_eq!(z.cross(x), y);
    assert_eq!(y.cross(x), Vec3::new(0, 0, -1));
    let a: Vec3i = Vec3::new(2, 3, 4);
    let b: Vec3i = Vec3::new(5, 6, 7);
    assert_eq!(a.cross(b), Vec3::new(3 * 7 - 4 * 6, 4 * 5 - 2 * 7, 2 * 6 - 3 * 5));
    assert_eq!(a ^ b, a.cross(b));
}

#[test]
fn vectors_work_over_other_element_types() {
    let a = Vec3::new(0.5f64, 1.0, 2.0);
    let b = Vec3::new(2.0f64, 4.0, 8.0);
    assert_eq!(a + b, Vec3::new(2.5, 5.0, 10.0));
    assert_eq!(a * b, 1.0 + 4.0 + 16.0);
    assert_eq!(a * 2.0, Vec3::new(1.0, 2.0, 4.0));
    let u = Vec2::new(1u8, 2u8);
    assert_eq!(u + u, Vec2::new(2u8, 4u8));
}
