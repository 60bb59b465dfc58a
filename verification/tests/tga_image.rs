use tinyrenderer::tga::{Format, TGAColor, TGAHeader, TGAImage};

fn channels(c: &TGAColor) -> [u8; 4] {
    [c[0], c[1], c[2], c[3]]
}

#[test]
fn color_channels_are_stored_blue_first() {
    let c = TGAColor::new(1, 2, 3, 4);
    assert_eq!(channels(&c), [3, 2, 1, 4]);
    let c = TGAColor::from_rgba(10, 20, 30, 40);
    assert_eq!(channels(&c), [30, 20, 10, 40]);
}

#[test]
fn from_rgb_is_opaque() {
    let c = TGAColor::from_rgb(9, 8, 7);
    assert_eq!(channels(&c), [7, 8, 9, 255]);
}

#[test]
fn from_hex_splits_the_low_24_bits() {
    let c = TGAColor::from_hex(0x12_34_56);
    assert_eq!(channels(&c), [0x56, 0x34, 0x12, 255]);
    let c = TGAColor::from_hex(0xAB_FF_00_FF);
    assert_eq!(channels(&c), [0xFF, 0x00, 0xFF, 255]);
}

#[test]
fn from_bpp_is_all_zero() {
    let c = TGAColor::from_bpp(3);
    assert_eq!(channels(&c), [0, 0, 0, 0]);
}

#[test]
fn format_from_bpp_knows_three_layouts() {
    assert_eq!(Format::from_bpp(1), Some(Format::Grayscale));
    assert_eq!(Format::from_bpp(3), Some(Format::RGB));
    assert_eq!(Format::from_bpp(4), Some(Format::RGBA));
    assert_eq!(Format::from_bpp(0), None);
    assert_eq!(Format::from_bpp(2), None);
    assert_eq!(Format::from_bpp(5), None);
    assert_eq!(Format::Grayscale.bpp(), 1);
    assert_eq!(Format::RGB.bpp(), 3);
    assert_eq!(Format::RGBA.bpp(), 4);
}

#[test]
fn new_image_is_black_and_has_its_extent() {
    let img = TGAImage::new(7, 5, Format::RGB);
    assert_eq!(img.width(), 7);
    assert_eq!(img.height(), 5);
    assert_eq!(img.bpp(), 3);
    for y in 0..5 {
        for x in 0..7 {
            let c = img.get(x, y).unwrap();
            assert_eq!(channels(&c), [0, 0, 0, 0]);
        }
    }
}

#[test]
fn set_then_get_keeps_as_many_channels_as_a_pixel_holds() {
    let color = TGAColor::new(11, 22, 33, 44);
    let mut gray = TGAImage::new(4, 4, Format::Grayscale);
    assert!(gray.set(1, 2, color).is_ok());
    assert_eq!(channels(&gray.get(1, 2).unwrap()), [33, 0, 0, 0]);
    let mut rgb = TGAImage::new(4, 4, Format::RGB);
    assert!(rgb.set(1, 2, color).is_ok());
    assert_eq!(channels(&rgb.get(1, 2).unwrap()), [33, 22, 11, 0]);
    let mut rgba = TGAImage::new(4, 4, Format::RGBA);
    assert!(rgba.set(1, 2, color).is_ok());
    assert_eq!(channels(&rgba.get(1, 2).unwrap()), [33, 22, 11, 44]);
}

#[test]
fn set_touches_one_pixel_only() {
    let mut img = TGAImage::new(3, 3, Format::RGB);
    img.set(2, 1, TGAColor::from_rgb(1, 2, 3)).unwrap();
    for y in 0..3 {
        for x in 0..3 {
            let c = img.get(x, y).unwrap();
            if (x, y) == (2, 1) {
                assert_eq!(channels(&c), [3, 2, 1, 0]);
            } else {
                assert_eq!(channels(&c), [0, 0, 0, 0]);
            }
        }
    }
}

#[test]
fn set_outside_the_extent_is_refused() {
    let mut img = TGAImage::new(3, 2, Format::RGB);
    let c = TGAColor::from_rgb(1, 2, 3);
    assert_eq!(img.set(3, 0, c), Err("Coordinates out of bounds".to_string()));
    assert_eq!(img.set(0, 2, c), Err("Coordinates out of bounds".to_string()));
    assert_eq!(img.set(usize::MAX, 0, c), Err("Coordinates out of bounds".to_string()));
    assert!(img.set(2, 1, c).is_ok());
}

#[test]
fn get_outside_the_extent_is_none() {
    let img = TGAImage::new(3, 2, Format::RGB);
    assert!(img.get(-1, 0).is_none());
    assert!(img.get(0, -1).is_none());
    assert!(img.get(3, 0).is_none());
    assert!(img.get(0, 2).is_none());
    assert!(img.get(2, 1).is_some());
}

#[test]
fn empty_image_has_no_pixel() {
    let mut img = TGAImage::new(0, 0, Format::RGBA);
    assert!(img.get(0, 0).is_none());
    assert!(img.set(0, 0, TGAColor::from_rgb(1, 1, 1)).is_err());
}

#[test]
fn header_new_is_all_zero() {
    let h = TGAHeader::new();
    assert_eq!(h.to_bytes(), vec![0u8; 18]);
    assert_eq!(h, TGAHeader::default());
}

#[test]
fn header_is_written_field_by_field_low_byte_first() {
    let h = TGAHeader {
        id_length: 1,
        color_map_type: 2,
        data_type_code: 10,
        color_map_origin: 0x0403,
        color_map_length: 0x0605,
        color_map_depth: 7,
        x_origin: 0x0908,
        y_origin: 0x0B0A,
        width: 800,
        height: 0xFFFE,
        bits_per_pixel: 24,
        image_descriptor: 0x20,
    };
    let bytes = h.to_bytes();
    assert_eq!(
        bytes,
        vec![1, 2, 10, 3, 4, 5, 6, 7, 8, 9, 10, 11, 0x20, 0x03, 0xFE, 0xFF, 24, 0x20]
    );
    assert_eq!(TGAHeader::from_bytes(&bytes), Some(h));
}

#[test]
fn header_needs_eighteen_bytes() {
    assert_eq!(TGAHeader::from_bytes(&[0u8; 17]), None);
    assert_eq!(TGAHeader::from_bytes(&[]), None);
    let mut long = vec![0u8; 30];
    long[12] = 5;
    long[14] = 6;
    let h = TGAHeader::from_bytes(&long).unwrap();
    assert_eq!(h.width, 5);
    assert_eq!(h.height, 6);
}
