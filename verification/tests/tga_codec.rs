use tinyrenderer::tga::codec::DecodeError;
use tinyrenderer::tga::{Format, TGAColor, TGAImage};

const FOOTER: [u8; 26] = [
    0, 0, 0, 0, 0, 0, 0, 0, b'T', b'R', b'U', b'E', b'V', b'I', b'S', b'I', b'O', b'N', b'-',
    b'X', b'F', b'I', b'L', b'E', b'.', 0,
];

fn gray_image(width: i32, pixels: &[u8]) -> TGAImage {
    let height = pixels.len() as i32 / width;
    let mut img = TGAImage::new(width, height, Format::Grayscale);
    for (i, p) in pixels.iter().enumerate() {
        let x = i % width as usize;
        let y = i / width as usize;
        img.set(x, y, TGAColor::new(0, 0, *p, 0)).unwrap();
    }
    img
}

fn rle_of(img: &TGAImage) -> Vec<u8> {
    let mut out = Vec::new();
    img.unload_rle_data(&mut out);
    out
}

fn same_pixels(a: &TGAImage, b: &TGAImage) -> bool {
    if a.width() != b.width() || a.height() != b.height() || a.bpp() != b.bpp() {
        return false;
    }
    for y in 0..a.height() {
        for x in 0..a.width() {
            let p = a.get(x, y).unwrap();
            let q = b.get(x, y).unwrap();
            if [p[0], p[1], p[2], p[3]] != [q[0], q[1], q[2], q[3]] {
                return false;
            }
        }
    }
    true
}

/// An image with runs of every kind: long repeats, single pixels and
/// pairs, in a fixed pattern.
fn patterned(width: i32, height: i32, format: Format) -> TGAImage {
    let mut img = TGAImage::new(width, height, format);
    let mut state: u32 = 12345;
    let mut left = 0;
    let mut color = TGAColor::from_rgba(0, 0, 0, 0);
    for y in 0..height {
        for x in 0..width {
            if left == 0 {
                state = state.wrapping_mul(1103515245).wrapping_add(12345);
                left = match (state >> 16) % 5 {
                    0 => 1,
                    1 => 2,
                    2 => 3,
                    3 => 130,
                    _ => 1,
                };
                state = state.wrapping_mul(1103515245).wrapping_add(12345);
                let v = state >> 8;
                color = TGAColor::from_rgba(v as u8, (v >> 8) as u8, (v >> 16) as u8, (v >> 3) as u8);
            }
            left -= 1;
            img.set(x as usize, y as usize, color).unwrap();
        }
    }
    img
}

#[test]
fn rle_packets_of_a_short_row() {
    let img = gray_image(6, &[7, 7, 7, 8, 9, 9]);
    assert_eq!(rle_of(&img), vec![0x82, 7, 0x00, 8, 0x81, 9]);
}

#[test]
fn rle_literal_run_stops_before_an_equal_pair() {
    let img = gray_image(7, &[1, 2, 3, 4, 4, 4, 5]);
    assert_eq!(rle_of(&img), vec![0x02, 1, 2, 3, 0x82, 4, 0x00, 5]);
}

#[test]
fn rle_single_pixel_is_a_literal_run() {
    let img = gray_image(1, &[42]);
    assert_eq!(rle_of(&img), vec![0x00, 42]);
}

#[test]
fn rle_of_no_pixels_is_empty() {
    let img = TGAImage::new(0, 5, Format::RGB);
    assert_eq!(rle_of(&img), Vec::<u8>::new());
}

#[test]
fn rle_appends_to_what_is_there() {
    let img = gray_image(2, &[5, 5]);
    let mut out = vec![1, 2, 3];
    img.unload_rle_data(&mut out);
    assert_eq!(out, vec![1, 2, 3, 0x81, 5]);
}

#[test]
fn rle_repeat_run_is_capped_at_128() {
    let img = gray_image(130, &[3u8; 130]);
    assert_eq!(rle_of(&img), vec![0xFF, 3, 0x81, 3]);
}

#[test]
fn rle_literal_run_is_capped_at_128() {
    let pixels: Vec<u8> = (0..130).map(|i| i as u8).collect();
    let img = gray_image(130, &pixels);
    let out = rle_of(&img);
    assert_eq!(out.len(), 1 + 128 + 1 + 2);
    assert_eq!(out[0], 127);
    assert_eq!(&out[1..129], &pixels[0..128]);
    assert_eq!(&out[129..], &[0x01, 128, 129]);
}

#[test]
fn rle_compares_whole_pixels() {
    let mut img = TGAImage::new(3, 1, Format::RGB);
    img.set(0, 0, TGAColor::from_rgb(1, 2, 3)).unwrap();
    img.set(1, 0, TGAColor::from_rgb(1, 2, 4)).unwrap();
    img.set(2, 0, TGAColor::from_rgb(1, 2, 4)).unwrap();
    assert_eq!(rle_of(&img), vec![0x00, 3, 2, 1, 0x81, 4, 2, 1]);
}

#[test]
fn load_rle_data_reads_both_kinds_of_packet() {
    let stream = [0x82, 7, 0x01, 8, 9, 0xAA, 0xBB];
    assert_eq!(TGAImage::load_rle_data(&stream, 5, 1), Some(vec![7, 7, 7, 8, 9]));
    let stream = [0x81, 1, 2, 3, 0x00, 4, 5, 6];
    assert_eq!(TGAImage::load_rle_data(&stream, 3, 3), Some(vec![1, 2, 3, 1, 2, 3, 4, 5, 6]));
}

#[test]
fn load_rle_data_reads_the_last_packet_whole() {
    let stream = [0x83, 7];
    assert_eq!(TGAImage::load_rle_data(&stream, 2, 1), Some(vec![7, 7, 7, 7]));
}

#[test]
fn load_rle_data_fails_on_a_short_stream() {
    assert_eq!(TGAImage::load_rle_data(&[], 1, 1), None);
    assert_eq!(TGAImage::load_rle_data(&[0x81], 2, 1), None);
    assert_eq!(TGAImage::load_rle_data(&[0x01, 5], 2, 1), None);
    assert_eq!(TGAImage::load_rle_data(&[0x80, 5], 2, 1), None);
    assert_eq!(TGAImage::load_rle_data(&[], 0, 1), Some(vec![]));
}

#[test]
fn encode_raw_lays_out_header_pixels_footer() {
    let img = gray_image(2, &[1, 2, 3, 4]);
    let bytes = img.encode(false, false);
    let mut expected = vec![0, 0, 2, 0, 0, 0, 0, 0, 0, 0, 0, 0, 2, 0, 2, 0, 8, 0x20];
    expected.extend_from_slice(&[1, 2, 3, 4]);
    expected.extend_from_slice(&FOOTER);
    assert_eq!(bytes, expected);
}

#[test]
fn encode_rle_sets_the_data_type_and_the_flip_bit() {
    let mut img = TGAImage::new(300, 2, Format::RGB);
    img.set(299, 1, TGAColor::from_rgb(1, 2, 3)).unwrap();
    let bytes = img.encode(true, true);
    assert_eq!(&bytes[0..18], &[0, 0, 10, 0, 0, 0, 0, 0, 0, 0, 0, 0, 0x2C, 0x01, 2, 0, 24, 0]);
    assert_eq!(&bytes[bytes.len() - 26..], &FOOTER);
}

#[test]
fn round_trip_rle() {
    for format in [Format::Grayscale, Format::RGB, Format::RGBA] {
        let img = patterned(97, 53, format);
        let back = TGAImage::decode(&img.encode(true, true)).unwrap();
        assert!(same_pixels(&img, &back));
        assert_eq!(back.encode(true, true), img.encode(true, true));
    }
}

#[test]
fn round_trip_raw() {
    for format in [Format::Grayscale, Format::RGB, Format::RGBA] {
        let img = patterned(31, 64, format);
        let back = TGAImage::decode(&img.encode(false, false)).unwrap();
        assert!(same_pixels(&img, &back));
        assert_eq!(back.encode(false, false), img.encode(false, false));
    }
}

#[test]
fn round_trip_keeps_width_height_and_depth() {
    for (w, h, format, bpp) in
        [(1, 1, Format::Grayscale, 1), (640, 3, Format::RGB, 3), (2, 700, Format::RGBA, 4)]
    {
        for rle in [false, true] {
            let img = TGAImage::new(w, h, format);
            let back = TGAImage::decode(&img.encode(false, rle)).unwrap();
            assert_eq!(back.width(), w);
            assert_eq!(back.height(), h);
            assert_eq!(back.bpp(), bpp);
        }
    }
}

#[test]
fn round_trip_of_an_empty_image() {
    let img = TGAImage::new(0, 0, Format::RGB);
    for rle in [false, true] {
        let bytes = img.encode(true, rle);
        assert_eq!(bytes.len(), 18 + 26);
        let back = TGAImage::decode(&bytes).unwrap();
        assert_eq!((back.width(), back.height(), back.bpp()), (0, 0, 3));
    }
}

#[test]
fn single_pixel_survives_rle_round_trip() {
    let mut image = TGAImage::new(100, 100, Format::RGB);
    image.set(52, 41, TGAColor::new(255, 0, 255, 255)).unwrap();
    let back = TGAImage::decode(&image.encode(true, true)).unwrap();
    assert_eq!(back.width(), 100);
    assert_eq!(back.height(), 100);
    assert_eq!(back.bpp(), 3);
    for y in 0..100 {
        for x in 0..100 {
            let c = back.get(x, y).unwrap();
            if (x, y) == (52, 41) {
                assert_eq!([c[0], c[1], c[2], c[3]], [255, 0, 255, 0]);
            } else {
                assert_eq!([c[0], c[1], c[2], c[3]], [0, 0, 0, 0]);
            }
        }
    }
}

#[test]
fn decode_skips_the_image_id() {
    let mut bytes = vec![3, 0, 2, 0, 0, 0, 0, 0, 0, 0, 0, 0, 2, 0, 1, 0, 8, 0];
    bytes.extend_from_slice(&[0xEE, 0xEE, 0xEE]);
    bytes.extend_from_slice(&[5, 6]);
    let img = TGAImage::decode(&bytes).unwrap();
    assert_eq!((img.width(), img.height(), img.bpp()), (2, 1, 1));
    assert_eq!(img.get(0, 0).unwrap()[0], 5);
    assert_eq!(img.get(1, 0).unwrap()[0], 6);
}

#[test]
fn decode_needs_no_footer() {
    let bytes = vec![0, 0, 10, 0, 0, 0, 0, 0, 0, 0, 0, 0, 3, 0, 1, 0, 8, 0, 0x82, 9];
    let img = TGAImage::decode(&bytes).unwrap();
    for x in 0..3 {
        assert_eq!(img.get(x, 0).unwrap()[0], 9);
    }
}

#[test]
fn decode_drops_what_the_last_packet_brings_too_much() {
    let bytes = vec![0, 0, 10, 0, 0, 0, 0, 0, 0, 0, 0, 0, 2, 0, 1, 0, 8, 0, 0x00, 4, 0x83, 9];
    let img = TGAImage::decode(&bytes).unwrap();
    assert_eq!((img.width(), img.height(), img.bpp()), (2, 1, 1));
    assert_eq!(img.get(0, 0).unwrap()[0], 4);
    assert_eq!(img.get(1, 0).unwrap()[0], 9);
    assert_eq!(img.encode(false, false).len(), 18 + 2 + 26);
}

#[test]
fn decode_keeps_other_bit_depths() {
    let mut bytes = vec![0, 0, 2, 0, 0, 0, 0, 0, 0, 0, 0, 0, 2, 0, 1, 0, 16, 0];
    bytes.extend_from_slice(&[1, 2, 3, 4]);
    let img = TGAImage::decode(&bytes).unwrap();
    assert_eq!((img.width(), img.height(), img.bpp()), (2, 1, 2));
    let c = img.get(1, 0).unwrap();
    assert_eq!([c[0], c[1], c[2], c[3]], [3, 4, 0, 0]);
    assert!(TGAImage::decode(&img.encode(false, true)).is_ok());
}

#[test]
fn decode_of_a_short_header_is_a_short_read() {
    assert_eq!(TGAImage::decode(&[]).err(), Some(DecodeError::ShortRead));
    assert_eq!(TGAImage::decode(&[0u8; 17]).err(), Some(DecodeError::ShortRead));
}

#[test]
fn decode_of_short_pixel_data_is_a_short_read() {
    let mut raw = vec![0, 0, 2, 0, 0, 0, 0, 0, 0, 0, 0, 0, 2, 0, 2, 0, 24, 0];
    raw.extend_from_slice(&[0u8; 11]);
    assert_eq!(TGAImage::decode(&raw).err(), Some(DecodeError::ShortRead));
    raw.push(0);
    assert!(TGAImage::decode(&raw).is_ok());
    let rle = vec![0, 0, 10, 0, 0, 0, 0, 0, 0, 0, 0, 0, 2, 0, 2, 0, 24, 0, 0x82, 1, 2, 3];
    assert_eq!(TGAImage::decode(&rle).err(), Some(DecodeError::ShortRead));
}

#[test]
fn decode_reads_raw_grayscale_as_raw_with_one_byte_per_pixel() {
    let mut gray = vec![0, 0, 3, 0, 0, 0, 0, 0, 0, 0, 0, 0, 3, 0, 2, 0, 8, 0];
    gray.extend_from_slice(&[1, 2, 3, 4, 5, 6]);
    let mut colour = gray.clone();
    colour[2] = 2;
    let img = TGAImage::decode(&gray).unwrap();
    assert_eq!((img.width(), img.height(), img.bpp()), (3, 2, 1));
    for y in 0..2 {
        for x in 0..3 {
            let c = img.get(x, y).unwrap();
            assert_eq!([c[0], c[1], c[2], c[3]], [(1 + x + 3 * y) as u8, 0, 0, 0]);
        }
    }
    let same = TGAImage::decode(&colour).unwrap();
    assert!(same_pixels(&img, &same));
    gray.pop();
    assert_eq!(TGAImage::decode(&gray).err(), Some(DecodeError::ShortRead));
}

#[test]
fn decode_reads_packed_grayscale_as_packed_with_one_byte_per_pixel() {
    let gray = vec![0, 0, 11, 0, 0, 0, 0, 0, 0, 0, 0, 0, 3, 0, 2, 0, 8, 0, 0x82, 7, 0x02, 1, 2, 3];
    let mut colour = gray.clone();
    colour[2] = 10;
    let img = TGAImage::decode(&gray).unwrap();
    assert_eq!((img.width(), img.height(), img.bpp()), (3, 2, 1));
    let expected = [7u8, 7, 7, 1, 2, 3];
    for y in 0..2 {
        for x in 0..3 {
            assert_eq!(img.get(x, y).unwrap()[0], expected[(x + 3 * y) as usize]);
        }
    }
    let same = TGAImage::decode(&colour).unwrap();
    assert!(same_pixels(&img, &same));
    assert_eq!(TGAImage::decode(&gray[..22]).err(), Some(DecodeError::ShortRead));
}

#[test]
fn grayscale_data_types_have_one_byte_per_pixel_whatever_the_bit_depth() {
    for (code, body) in [(3u8, vec![9u8, 8]), (11, vec![0x01, 9, 8])] {
        for bits in [0u8, 8, 24, 32] {
            let mut bytes = vec![0, 0, code, 0, 0, 0, 0, 0, 0, 0, 0, 0, 2, 0, 1, 0, bits, 0];
            bytes.extend_from_slice(&body);
            let img = TGAImage::decode(&bytes).unwrap();
            assert_eq!((img.width(), img.height(), img.bpp()), (2, 1, 1));
            assert_eq!(img.get(0, 0).unwrap()[0], 9);
            assert_eq!(img.get(1, 0).unwrap()[0], 8);
        }
    }
}

#[test]
fn decode_refuses_other_data_types() {
    for code in [0u8, 1, 4, 9, 12, 32, 255] {
        let mut bytes = vec![0, 0, code, 0, 0, 0, 0, 0, 0, 0, 0, 0, 1, 0, 1, 0, 8, 0];
        bytes.extend_from_slice(&[0u8; 8]);
        assert_eq!(TGAImage::decode(&bytes).err(), Some(DecodeError::UnsupportedFormat(code)));
    }
}

/// The packets for a row of pixels, written out the long way to compare
/// against: runs are found by looking ahead from each start.
fn packets(pixels: &[Vec<u8>]) -> Vec<u8> {
    let mut out = Vec::new();
    let mut start = 0;
    while start < pixels.len() {
        let cap = (pixels.len() - start).min(128);
        let repeat = cap >= 2 && pixels[start] == pixels[start + 1];
        let mut len = 1;
        if repeat {
            while len < cap && pixels[start + len] == pixels[start] {
                len += 1;
            }
            out.push((len + 127) as u8);
            out.extend_from_slice(&pixels[start]);
        } else {
            while len < cap {
                if len + 1 < cap && pixels[start + len] == pixels[start + len + 1] {
                    break;
                }
                len += 1;
            }
            out.push((len - 1) as u8);
            for p in &pixels[start..start + len] {
                out.extend_from_slice(p);
            }
        }
        start += len;
    }
    out
}

#[test]
fn rle_matches_packets_found_by_looking_ahead() {
    for (format, bpp) in [(Format::Grayscale, 1usize), (Format::RGB, 3), (Format::RGBA, 4)] {
        for (w, h) in [(1, 1), (2, 1), (3, 1), (129, 1), (128, 2), (257, 3), (40, 40)] {
            let img = patterned(w, h, format);
            let mut pixels = Vec::new();
            for y in 0..h {
                for x in 0..w {
                    let c = img.get(x, y).unwrap();
                    pixels.push([c[0], c[1], c[2], c[3]][..bpp].to_vec());
                }
            }
            assert_eq!(rle_of(&img), packets(&pixels), "for {} by {} of {}", w, h, bpp);
        }
    }
}

#[test]
fn decoding_any_prefix_of_a_file_never_panics() {
    let img = patterned(20, 10, Format::RGB);
    for rle in [false, true] {
        let bytes = img.encode(false, rle);
        let pixel_end = bytes.len() - 26;
        for cut in 0..bytes.len() {
            let r = TGAImage::decode(&bytes[..cut]);
            assert_eq!(r.is_ok(), cut >= pixel_end, "rle {} cut {}", rle, cut);
        }
    }
}
