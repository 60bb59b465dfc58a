use tinyrenderer::geometry::Vec3;
use tinyrenderer::model::obj::{face_corner, parse_i32};

#[test]
fn parse_i32_reads_signed_decimals() {
    assert_eq!(parse_i32(b"0"), Some(0));
    assert_eq!(parse_i32(b"7"), Some(7));
    assert_eq!(parse_i32(b"007"), Some(7));
    assert_eq!(parse_i32(b"+15"), Some(15));
    assert_eq!(parse_i32(b"-15"), Some(-15));
    assert_eq!(parse_i32(b"-0"), Some(0));
    assert_eq!(parse_i32(b"1258"), Some(1258));
}

#[test]
fn parse_i32_agrees_with_the_standard_parser() {
    let texts = [
        "", "+", "-", "1", "-1", "+1", "12a", "a12", " 12", "12 ", "1.5", "--1", "+-1", "0000",
        "2147483647", "2147483648", "-2147483648", "-2147483649", "99999999999999999999",
        "-99999999999999999999", "00000000000000000000012", "1/2", "/",
    ];
    for text in texts {
        assert_eq!(parse_i32(text.as_bytes()), text.parse::<i32>().ok(), "for {:?}", text);
    }
}

#[test]
fn parse_i32_keeps_the_ends_of_the_range() {
    assert_eq!(parse_i32(b"2147483647"), Some(i32::MAX));
    assert_eq!(parse_i32(b"-2147483648"), Some(i32::MIN));
    assert_eq!(parse_i32(b"2147483648"), None);
    assert_eq!(parse_i32(b"-2147483649"), None);
}

#[test]
fn face_corner_makes_indices_zero_based() {
    assert_eq!(face_corner(b"1/2/3"), Some(Vec3::new(0, 1, 2)));
    assert_eq!(face_corner(b"1193/1240/1193"), Some(Vec3::new(1192, 1239, 1192)));
    assert_eq!(face_corner(b"-1/-2/-3"), Some(Vec3::new(-2, -3, -4)));
}

#[test]
fn face_corner_counts_a_missing_number_as_zero() {
    assert_eq!(face_corner(b"5//7"), Some(Vec3::new(4, -1, 6)));
    assert_eq!(face_corner(b"//"), Some(Vec3::new(-1, -1, -1)));
    assert_eq!(face_corner(b"x/2/y"), Some(Vec3::new(-1, 1, -1)));
    assert_eq!(face_corner(b"1/2/"), Some(Vec3::new(0, 1, -1)));
    assert_eq!(face_corner(b"1/99999999999/3"), Some(Vec3::new(0, -1, 2)));
}

#[test]
fn face_corner_needs_three_fields() {
    assert_eq!(face_corner(b""), None);
    assert_eq!(face_corner(b"1"), None);
    assert_eq!(face_corner(b"1/2"), None);
    assert_eq!(face_corner(b"1/"), None);
}

#[test]
fn face_corner_ignores_further_fields() {
    assert_eq!(face_corner(b"1/2/3/4"), Some(Vec3::new(0, 1, 2)));
    assert_eq!(face_corner(b"1/2/3/"), Some(Vec3::new(0, 1, 2)));
}

#[test]
fn face_corner_counts_the_least_number_as_no_number() {
    assert_eq!(face_corner(b"-2147483648/1/1"), Some(Vec3::new(-1, 0, 0)));
    assert_eq!(face_corner(b"-2147483647/1/1"), Some(Vec3::new(i32::MIN, 0, 0)));
}
