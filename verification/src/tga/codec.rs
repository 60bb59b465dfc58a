//! The TGA file as bytes: header, optional image ID, pixel stream, footer.
use crate::tga::rle::{
    lemma_rle_decode_len, lemma_rle_round_trip, push_range, rle_decode, rle_encode,
};
use crate::tga::{Raster, TGAHeader, TGAImage, HEADER_LEN};
use vstd::prelude::*;
use vstd::slice::slice_subrange;

verus! {

/// Data type code of an uncompressed true-colour image.
pub const DATA_TYPE_RAW: u8 = 2;

/// Data type code of a run-length encoded true-colour image.
pub const DATA_TYPE_RLE: u8 = 10;

/// Data type code of an uncompressed grayscale image.
pub const DATA_TYPE_GRAY_RAW: u8 = 3;

/// Data type code of a run-length encoded grayscale image.
pub const DATA_TYPE_GRAY_RLE: u8 = 11;

/// Image descriptor bit that says the first row in the file is the top one.
pub const TOP_LEFT_ORIGIN: u8 = 0x20;

/// Why a byte sequence could not be decoded.
#[derive(Debug, Clone, Copy, PartialEq, Eq, Structural)]
pub enum DecodeError {
    /// The bytes end before the header or the pixel data does.
    ShortRead,
    /// The header names a data type other than raw or run-length encoded
    /// true colour or grayscale; the code is carried along.
    UnsupportedFormat(u8),
}

/// What follows the pixels: a zero developer area offset, a zero extension
/// area offset and the signature `TRUEVISION-XFILE.` with its final zero.
pub open spec fn footer() -> Seq<u8> {
    seq![
        0u8, 0u8, 0u8, 0u8,
        0u8, 0u8, 0u8, 0u8,
        84u8, 82u8, 85u8, 69u8, 86u8, 73u8, 83u8, 73u8, 79u8, 78u8,
        45u8,
        88u8, 70u8, 73u8, 76u8, 69u8,
        46u8, 0u8,
    ]
}

/// The header written for an image. The extent is kept modulo 65536 and
/// the bit depth modulo 256, which is what fits the fields.
pub open spec fn header_of(img: Raster, vflip: bool, rle: bool) -> TGAHeader {
    TGAHeader {
        data_type_code: if rle {
            DATA_TYPE_RLE
        } else {
            DATA_TYPE_RAW
        },
        width: (img.width % 65536) as u16,
        height: (img.height % 65536) as u16,
        bits_per_pixel: (img.bpp * 8 % 256) as u8,
        image_descriptor: if vflip {
            0u8
        } else {
            TOP_LEFT_ORIGIN
        },
        ..TGAHeader::zero()
    }
}

/// The pixel stream written for an image: its bytes as they are, or its
/// `width * height` pixels in run-length encoded packets.
pub open spec fn pixel_stream(img: Raster, rle: bool) -> Seq<u8> {
    if rle {
        rle_encode(img.data, img.bpp, img.width * img.height, 0)
    } else {
        img.data
    }
}

/// The file written for an image.
pub open spec fn encoded(img: Raster, vflip: bool, rle: bool) -> Seq<u8> {
    header_of(img, vflip, rle).to_seq() + pixel_stream(img, rle) + footer()
}

/// Where the pixel stream starts in a file with header `h`: after the
/// header and the image ID, or at the end of the file if that comes first.
pub open spec fn body_start(bytes: Seq<u8>, h: TGAHeader) -> int {
    if HEADER_LEN + h.id_length <= bytes.len() {
        HEADER_LEN + h.id_length
    } else {
        bytes.len() as int
    }
}

/// The pixels of a file with this data type code are stored as they are.
pub open spec fn stored_raw(code: u8) -> bool {
    code == DATA_TYPE_RAW || code == DATA_TYPE_GRAY_RAW
}

/// The pixels of a file with this data type code are run-length encoded.
pub open spec fn stored_rle(code: u8) -> bool {
    code == DATA_TYPE_RLE || code == DATA_TYPE_GRAY_RLE
}

/// Bytes per pixel of the file with header `h`: one for the grayscale
/// data types, whatever the header's bit depth says, and an eighth of the
/// bit depth, rounded down, for the others.
pub open spec fn bytes_per_pixel(h: TGAHeader) -> int {
    if h.data_type_code == DATA_TYPE_GRAY_RAW || h.data_type_code == DATA_TYPE_GRAY_RLE {
        1
    } else {
        (h.bits_per_pixel / 8) as int
    }
}

/// The image that a file stands for, or why it stands for none. The
/// grayscale data types are read as the true-colour ones with one byte
/// per pixel. Of run-length encoded pixels the image keeps as many as
/// its extent asks for; what the last packet brings beyond them is
/// dropped.
pub open spec fn decoded(bytes: Seq<u8>) -> Result<Raster, DecodeError> {
    if bytes.len() < HEADER_LEN {
        Err(DecodeError::ShortRead)
    } else {
        let h = TGAHeader::from_seq(bytes);
        let bpp = bytes_per_pixel(h);
        let body = bytes.skip(body_start(bytes, h));
        let pixels = h.width * h.height;
        if stored_raw(h.data_type_code) {
            if body.len() < pixels * bpp {
                Err(DecodeError::ShortRead)
            } else {
                Ok(
                    Raster {
                        width: h.width as int,
                        height: h.height as int,
                        bpp,
                        data: body.subrange(0, pixels * bpp),
                    },
                )
            }
        } else if stored_rle(h.data_type_code) {
            match rle_decode(body, bpp, pixels) {
                Some(data) => Ok(
                    Raster {
                        width: h.width as int,
                        height: h.height as int,
                        bpp,
                        data: data.subrange(0, pixels * bpp),
                    },
                ),
                None => Err(DecodeError::ShortRead),
            }
        } else {
            Err(DecodeError::UnsupportedFormat(h.data_type_code))
        }
    }
}

/// An image whose extent and depth fit the header fields and whose buffer
/// holds exactly its pixels comes back from its file as it was, raw or
/// run-length encoded, flipped or not.
pub proof fn lemma_decode_encode(img: Raster, vflip: bool, rle: bool)
    requires
        img.wf(),
        img.width <= 65535,
        img.height <= 65535,
        img.bpp < 32,
    ensures
        decoded(encoded(img, vflip, rle)) == Ok::<Raster, DecodeError>(img),
{
    let h = header_of(img, vflip, rle);
    let stream = pixel_stream(img, rle);
    let bytes = encoded(img, vflip, rle);
    let n = img.width * img.height;
    assert(bytes =~= h.to_seq() + (stream + footer()));
    h.lemma_header_round_trip(stream + footer());
    assert(h.bits_per_pixel / 8 == img.bpp);
    assert(h.width == img.width && h.height == img.height);
    assert(body_start(bytes, h) == 18);
    let body = bytes.skip(18);
    assert(body =~= stream + footer());
    assert(0 <= n) by (nonlinear_arith)
        requires
            0 <= img.width,
            0 <= img.height,
            n == img.width * img.height,
    ;
    if rle {
        lemma_rle_round_trip(img.data, img.bpp, n, 0, footer());
        assert(0 * img.bpp == 0);
        assert(img.data.subrange(0, n * img.bpp) =~= img.data);
    } else {
        assert(body.subrange(0, n * img.bpp) =~= img.data);
    }
}

/// Writing an image and reading the file back keeps width, height and
/// bytes per pixel, whenever they fit the header fields and the buffer
/// holds at least the image's pixels.
pub proof fn lemma_header_fidelity(img: Raster, vflip: bool, rle: bool)
    requires
        0 <= img.width <= 65535,
        0 <= img.height <= 65535,
        0 <= img.bpp < 32,
        img.width * img.height * img.bpp <= img.data.len(),
    ensures
        decoded(encoded(img, vflip, rle)) is Ok,
        decoded(encoded(img, vflip, rle))->Ok_0.width == img.width,
        decoded(encoded(img, vflip, rle))->Ok_0.height == img.height,
        decoded(encoded(img, vflip, rle))->Ok_0.bpp == img.bpp,
{
    let h = header_of(img, vflip, rle);
    let stream = pixel_stream(img, rle);
    let bytes = encoded(img, vflip, rle);
    let n = img.width * img.height;
    assert(bytes =~= h.to_seq() + (stream + footer()));
    h.lemma_header_round_trip(stream + footer());
    assert(h.bits_per_pixel / 8 == img.bpp);
    assert(body_start(bytes, h) == 18);
    assert(bytes.skip(18) =~= stream + footer());
    assert(0 <= n) by (nonlinear_arith)
        requires
            0 <= img.width,
            0 <= img.height,
            n == img.width * img.height,
    ;
    if rle {
        lemma_rle_round_trip(img.data, img.bpp, n, 0, footer());
    }
}

impl TGAImage {
    /// The bytes of the file for this image. `vflip` only clears the
    /// top-left-origin bit of the descriptor; the rows are written in
    /// storage order either way.
    pub fn encode(&self, vflip: bool, rle: bool) -> (out: Vec<u8>)
        ensures
            out@ == encoded(self@, vflip, rle),
    {
        let wide_w: i64 = self.w as i64 + 0x1_0000_0000;
        let wide_h: i64 = self.h as i64 + 0x1_0000_0000;
        let depth: u16 = self.bpp as u16 * 8;
        let header = TGAHeader {
            id_length: 0,
            color_map_type: 0,
            data_type_code: if rle {
                DATA_TYPE_RLE
            } else {
                DATA_TYPE_RAW
            },
            color_map_origin: 0,
            color_map_length: 0,
            color_map_depth: 0,
            x_origin: 0,
            y_origin: 0,
            width: (wide_w % 65536) as u16,
            height: (wide_h % 65536) as u16,
            bits_per_pixel: (depth % 256) as u8,
            image_descriptor: if vflip {
                0
            } else {
                TOP_LEFT_ORIGIN
            },
        };
        assert(header == header_of(self@, vflip, rle));
        let mut out: Vec<u8> = header.to_bytes();
        if !rle {
            push_range(&mut out, self.data.as_slice(), 0, self.data.len());
            assert(self.data@.subrange(0, self.data@.len() as int) =~= self.data@);
        } else {
            self.unload_rle_data(&mut out);
        }
        let ghost body = out@;
        let mut i: usize = 0;
        while i < 8
            invariant
                i <= 8,
                out@ == body + footer().subrange(0, i as int),
            decreases 8 - i,
        {
            out.push(0);
            i += 1;
            assert(out@ =~= body + footer().subrange(0, i as int));
        }
        let signature: [u8; 18] = [
            84, 82, 85, 69, 86, 73, 83, 73, 79, 78,
            45,
            88, 70, 73, 76, 69,
            46, 0,
        ];
        assert(signature@ =~= footer().subrange(8, 26));
        push_range(&mut out, signature.as_slice(), 0, 18);
        assert(out@ =~= body + footer());
        out
    }

    /// Reads an image from the bytes of a file. What follows the pixel
    /// stream is not looked at.
    pub fn decode(bytes: &[u8]) -> (r: Result<TGAImage, DecodeError>)
        ensures
            r is Ok <==> decoded(bytes@) is Ok,
            r is Ok ==> r->Ok_0@ == decoded(bytes@)->Ok_0,
            r is Err ==> r->Err_0 == decoded(bytes@)->Err_0,
    {
        let header = match TGAHeader::from_bytes(bytes) {
            Some(h) => h,
            None => {
                return Err(DecodeError::ShortRead);
            },
        };
        let code: u8 = header.data_type_code;
        let bytespp: u8 = if code == DATA_TYPE_GRAY_RAW || code == DATA_TYPE_GRAY_RLE {
            1
        } else {
            header.bits_per_pixel / 8
        };
        let w: u64 = header.width as u64;
        let h: u64 = header.height as u64;
        assert(w * h <= 65535 * 65535) by (nonlinear_arith)
            requires
                w <= 65535,
                h <= 65535,
        ;
        let pixels: u64 = w * h;
        assert(pixels * bytespp <= 65535 * 65535 * 31) by (nonlinear_arith)
            requires
                pixels <= 65535 * 65535,
                bytespp <= 31,
        ;
        let nbytes: u64 = pixels * bytespp as u64;
        let len: usize = bytes.len();
        let start: usize = if HEADER_LEN + header.id_length as usize <= len {
            HEADER_LEN + header.id_length as usize
        } else {
            len
        };
        assert(start == body_start(bytes@, header));
        assert(bytes@.skip(start as int) =~= bytes@.subrange(start as int, len as int));
        let data: Vec<u8> = if code == DATA_TYPE_RAW || code == DATA_TYPE_GRAY_RAW {
            if ((len - start) as u64) < nbytes {
                return Err(DecodeError::ShortRead);
            }
            let mut buf: Vec<u8> = Vec::new();
            push_range(&mut buf, bytes, start, start + nbytes as usize);
            assert(buf@ =~= bytes@.skip(start as int).subrange(0, pixels * bytespp));
            buf
        } else if code == DATA_TYPE_RLE || code == DATA_TYPE_GRAY_RLE {
            match TGAImage::load_rle_data(slice_subrange(bytes, start, len), pixels, bytespp) {
                Some(mut buf) => {
                    proof {
                        lemma_rle_decode_len(
                            bytes@.skip(start as int),
                            bytespp as int,
                            pixels as int,
                        );
                    }
                    buf.truncate(nbytes as usize);
                    buf
                },
                None => {
                    return Err(DecodeError::ShortRead);
                },
            }
        } else {
            return Err(DecodeError::UnsupportedFormat(code));
        };
        Ok(TGAImage { w: header.width as i32, h: header.height as i32, bpp: bytespp, data })
    }
}

} // verus!
