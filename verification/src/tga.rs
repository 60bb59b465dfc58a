//! Truevision TGA images: the pixel buffer, its colours, the packed file
//! header and the raw and run-length encoded pixel streams.
use std::ops::Index;
use vstd::prelude::*;

pub mod codec;
pub mod rle;

verus! {

/// Number of bytes of an encoded header.
pub const HEADER_LEN: usize = 18;

/// Low byte of a 16-bit little-endian field.
pub open spec fn lo8(v: u16) -> u8 {
    (v % 256) as u8
}

/// High byte of a 16-bit little-endian field.
pub open spec fn hi8(v: u16) -> u8 {
    (v / 256) as u8
}

/// The 16-bit value whose little-endian bytes are `lo`, `hi`.
pub open spec fn le16(lo: u8, hi: u8) -> u16 {
    (lo + 256 * hi) as u16
}

fn u16_from_le(lo: u8, hi: u8) -> (v: u16)
    ensures
        v == le16(lo, hi),
{
    let l: u16 = lo as u16;
    let h: u16 = hi as u16;
    h * 256 + l
}

fn u16_lo(v: u16) -> (b: u8)
    ensures
        b == lo8(v),
{
    (v % 256) as u8
}

fn u16_hi(v: u16) -> (b: u8)
    ensures
        b == hi8(v),
{
    (v / 256) as u8
}

/// The fixed header at the start of a TGA file. Multi-byte fields are
/// little-endian on disk and nothing pads the fields.
#[derive(Debug, Clone, Copy, PartialEq, Eq, Structural)]
pub struct TGAHeader {
    pub id_length: u8,
    pub color_map_type: u8,
    pub data_type_code: u8,
    pub color_map_origin: u16,
    pub color_map_length: u16,
    pub color_map_depth: u8,
    pub x_origin: u16,
    pub y_origin: u16,
    pub width: u16,
    pub height: u16,
    pub bits_per_pixel: u8,
    pub image_descriptor: u8,
}

impl TGAHeader {
    /// The header with every field zero.
    pub open spec fn zero() -> TGAHeader {
        TGAHeader {
            id_length: 0,
            color_map_type: 0,
            data_type_code: 0,
            color_map_origin: 0,
            color_map_length: 0,
            color_map_depth: 0,
            x_origin: 0,
            y_origin: 0,
            width: 0,
            height: 0,
            bits_per_pixel: 0,
            image_descriptor: 0,
        }
    }

    /// The 18 bytes that stand for this header in a file.
    pub open spec fn to_seq(self) -> Seq<u8> {
        seq![
            self.id_length,
            self.color_map_type,
            self.data_type_code,
            lo8(self.color_map_origin),
            hi8(self.color_map_origin),
            lo8(self.color_map_length),
            hi8(self.color_map_length),
            self.color_map_depth,
            lo8(self.x_origin),
            hi8(self.x_origin),
            lo8(self.y_origin),
            hi8(self.y_origin),
            lo8(self.width),
            hi8(self.width),
            lo8(self.height),
            hi8(self.height),
            self.bits_per_pixel,
            self.image_descriptor,
        ]
    }

    /// The header that the first 18 bytes of `s` stand for.
    pub open spec fn from_seq(s: Seq<u8>) -> TGAHeader
        recommends
            s.len() >= HEADER_LEN,
    {
        TGAHeader {
            id_length: s[0],
            color_map_type: s[1],
            data_type_code: s[2],
            color_map_origin: le16(s[3], s[4]),
            color_map_length: le16(s[5], s[6]),
            color_map_depth: s[7],
            x_origin: le16(s[8], s[9]),
            y_origin: le16(s[10], s[11]),
            width: le16(s[12], s[13]),
            height: le16(s[14], s[15]),
            bits_per_pixel: s[16],
            image_descriptor: s[17],
        }
    }

    pub fn new() -> (h: Self)
        ensures
            h == Self::zero(),
    {
        TGAHeader {
            id_length: 0,
            color_map_type: 0,
            data_type_code: 0,
            color_map_origin: 0,
            color_map_length: 0,
            color_map_depth: 0,
            x_origin: 0,
            y_origin: 0,
            width: 0,
            height: 0,
            bits_per_pixel: 0,
            image_descriptor: 0,
        }
    }

    /// Reads a header from the start of `bytes`; `None` when fewer than 18
    /// bytes are there.
    pub fn from_bytes(bytes: &[u8]) -> (r: Option<Self>)
        ensures
            r is None <==> bytes@.len() < HEADER_LEN,
            r is Some ==> r->0 == Self::from_seq(bytes@),
    {
        if bytes.len() < HEADER_LEN {
            return None;
        }
        Some(
            TGAHeader {
                id_length: bytes[0],
                color_map_type: bytes[1],
                data_type_code: bytes[2],
                color_map_origin: u16_from_le(bytes[3], bytes[4]),
                color_map_length: u16_from_le(bytes[5], bytes[6]),
                color_map_depth: bytes[7],
                x_origin: u16_from_le(bytes[8], bytes[9]),
                y_origin: u16_from_le(bytes[10], bytes[11]),
                width: u16_from_le(bytes[12], bytes[13]),
                height: u16_from_le(bytes[14], bytes[15]),
                bits_per_pixel: bytes[16],
                image_descriptor: bytes[17],
            },
        )
    }

    /// Writes the header field by field, low byte first.
    pub fn to_bytes(&self) -> (out: Vec<u8>)
        ensures
            out@ == self.to_seq(),
    {
        let mut out: Vec<u8> = Vec::new();
        out.push(self.id_length);
        out.push(self.color_map_type);
        out.push(self.data_type_code);
        out.push(u16_lo(self.color_map_origin));
        out.push(u16_hi(self.color_map_origin));
        out.push(u16_lo(self.color_map_length));
        out.push(u16_hi(self.color_map_length));
        out.push(self.color_map_depth);
        out.push(u16_lo(self.x_origin));
        out.push(u16_hi(self.x_origin));
        out.push(u16_lo(self.y_origin));
        out.push(u16_hi(self.y_origin));
        out.push(u16_lo(self.width));
        out.push(u16_hi(self.width));
        out.push(u16_lo(self.height));
        out.push(u16_hi(self.height));
        out.push(self.bits_per_pixel);
        out.push(self.image_descriptor);
        assert(out@ =~= self.to_seq());
        out
    }

    /// Reading back what `to_bytes` wrote gives the same header, whatever
    /// follows the 18 bytes.
    pub proof fn lemma_header_round_trip(self, rest: Seq<u8>)
        ensures
            (self.to_seq() + rest).len() >= HEADER_LEN,
            Self::from_seq(self.to_seq() + rest) == self,
    {
        let s = self.to_seq() + rest;
        assert(forall|i: int| 0 <= i < 18 ==> s[i] == self.to_seq()[i]);
        assert(s[3] == lo8(self.color_map_origin));
        assert(s[4] == hi8(self.color_map_origin));
    }
}

impl Default for TGAHeader {
    fn default() -> (h: Self)
        ensures
            h == TGAHeader::zero(),
    {
        TGAHeader::new()
    }
}

/// A colour: four channels in the order blue, green, red, alpha, and the
/// number of bytes per pixel that it was made for.
#[derive(Clone, Copy)]
pub struct TGAColor {
    bgra: [u8; 4],
    bytespp: u8,
}

impl View for TGAColor {
    type V = Seq<u8>;

    /// The four channels, blue first.
    closed spec fn view(&self) -> Seq<u8> {
        self.bgra@
    }
}

impl TGAColor {
    /// The declared number of bytes per pixel.
    pub closed spec fn spec_bytespp(&self) -> u8 {
        self.bytespp
    }

    pub fn new(r: u8, g: u8, b: u8, a: u8) -> (c: Self)
        ensures
            c@ == seq![b, g, r, a],
            c.spec_bytespp() == 4,
    {
        let c = Self { bgra: [b, g, r, a], bytespp: 4 };
        assert(c.bgra@ =~= seq![b, g, r, a]);
        c
    }

    pub fn from_rgb(r: u8, g: u8, b: u8) -> (c: Self)
        ensures
            c@ == seq![b, g, r, 255u8],
            c.spec_bytespp() == 4,
    {
        let c = Self { bgra: [b, g, r, 255], bytespp: 4 };
        assert(c.bgra@ =~= seq![b, g, r, 255u8]);
        c
    }

    pub fn from_rgba(r: u8, g: u8, b: u8, a: u8) -> (c: Self)
        ensures
            c@ == seq![b, g, r, a],
            c.spec_bytespp() == 4,
    {
        let c = Self { bgra: [b, g, r, a], bytespp: 4 };
        assert(c.bgra@ =~= seq![b, g, r, a]);
        c
    }

    /// An opaque colour from `0xRRGGBB`; bits above the low 24 are ignored.
    pub fn from_hex(hex: u32) -> (c: Self)
        ensures
            c@ == seq![
                (hex % 256) as u8,
                (hex / 256 % 256) as u8,
                (hex / 65536 % 256) as u8,
                255u8,
            ],
            c.spec_bytespp() == 4,
    {
        let r: u32 = (hex >> 16) & 0xFF;
        let g: u32 = (hex >> 8) & 0xFF;
        let b: u32 = hex & 0xFF;
        assert(r == hex / 65536 % 256 && g == hex / 256 % 256 && b == hex % 256) by (bit_vector)
            requires
                r == (hex >> 16) & 0xFF,
                g == (hex >> 8) & 0xFF,
                b == hex & 0xFF,
        ;
        TGAColor::from_rgba(r as u8, g as u8, b as u8, 255)
    }

    /// The colour with every channel zero, for images of `bpp` bytes per pixel.
    pub fn from_bpp(bpp: u8) -> (c: Self)
        ensures
            c@ == seq![0u8, 0u8, 0u8, 0u8],
            c.spec_bytespp() == bpp,
    {
        let c = TGAColor { bgra: [0, 0, 0, 0], bytespp: bpp };
        assert(c.bgra@ =~= seq![0u8, 0u8, 0u8, 0u8]);
        c
    }

    /// A colour from its four channels in storage order.
    pub(crate) fn from_channels(bgra: [u8; 4], bytespp: u8) -> (c: Self)
        ensures
            c@ == bgra@,
            c.spec_bytespp() == bytespp,
    {
        TGAColor { bgra, bytespp }
    }

    /// Every colour has exactly four channels.
    pub broadcast proof fn lemma_four_channels(self)
        ensures
            #[trigger] self@.len() == 4,
    {
    }
}

impl vstd::std_specs::core::IndexSpecImpl<usize> for TGAColor {
    open spec fn index_req(&self, index: &usize) -> bool {
        *index < 4
    }
}

impl Index<usize> for TGAColor {
    type Output = u8;

    /// Channel `index` in storage order: 0 blue, 1 green, 2 red, 3 alpha.
    fn index(&self, index: usize) -> (channel: &u8)
        ensures
            *channel == self@[index as int],
    {
        &self.bgra[index]
    }
}

/// The pixel layouts an image can be created with.
#[derive(Debug, Clone, Copy, PartialEq, Eq, Structural)]
pub enum Format {
    Grayscale,
    RGB,
    RGBA,
}

impl Format {
    /// Bytes per pixel of the layout: 1, 3 or 4.
    pub open spec fn spec_bpp(self) -> u8 {
        match self {
            Format::Grayscale => 1,
            Format::RGB => 3,
            Format::RGBA => 4,
        }
    }

    pub fn from_bpp(bpp: u8) -> (r: Option<Self>)
        ensures
            r is Some <==> bpp == 1 || bpp == 3 || bpp == 4,
            r is Some ==> r->0.spec_bpp() == bpp,
    {
        match bpp {
            1 => Some(Format::Grayscale),
            3 => Some(Format::RGB),
            4 => Some(Format::RGBA),
            _ => None,
        }
    }

    #[verifier::when_used_as_spec(spec_bpp)]
    pub fn bpp(self) -> (b: u8)
        ensures
            b == self.spec_bpp(),
    {
        match self {
            Format::Grayscale => 1,
            Format::RGB => 3,
            Format::RGBA => 4,
        }
    }
}

/// What an image is, as mathematics: its extent, its bytes per pixel and its
/// bytes, rows from the first to the last and pixels from left to right.
pub struct Raster {
    pub width: int,
    pub height: int,
    pub bpp: int,
    pub data: Seq<u8>,
}

impl Raster {
    /// The extent is not negative and the buffer holds exactly
    /// `width * height` pixels of `bpp` bytes.
    pub open spec fn wf(self) -> bool {
        &&& 0 <= self.width
        &&& 0 <= self.height
        &&& 0 <= self.bpp
        &&& self.data.len() == self.width * self.height * self.bpp
    }

    pub open spec fn contains(self, x: int, y: int) -> bool {
        0 <= x < self.width && 0 <= y < self.height
    }

    /// Index in `data` of the first byte of pixel `(x, y)`.
    pub open spec fn offset(self, x: int, y: int) -> int {
        (x + y * self.width) * self.bpp
    }

    /// Every pixel inside the extent has its bytes inside the buffer.
    pub proof fn lemma_contained(self, x: int, y: int)
        requires
            self.wf(),
            self.contains(x, y),
        ensures
            0 <= self.offset(x, y),
            self.offset(x, y) + self.bpp <= self.data.len(),
            0 <= x + y * self.width < self.width * self.height,
    {
        let k = x + y * self.width;
        assert(0 <= y * self.width && k + 1 <= self.width * self.height) by (nonlinear_arith)
            requires
                0 <= x < self.width,
                0 <= y < self.height,
                k == x + y * self.width,
        ;
        assert(0 <= k * self.bpp && (k + 1) * self.bpp <= self.width * self.height * self.bpp && (k
            + 1) * self.bpp == k * self.bpp + self.bpp) by (nonlinear_arith)
            requires
                0 <= k,
                k + 1 <= self.width * self.height,
                0 <= self.bpp,
        ;
    }

    /// How many channels of a colour a pixel holds: `bpp`, at most 4.
    pub open spec fn stored(self) -> int {
        if self.bpp < 4 {
            self.bpp
        } else {
            4
        }
    }

    /// The image after the first `stored()` channels of `channels` were
    /// written over the start of pixel `(x, y)`.
    pub open spec fn put(self, x: int, y: int, channels: Seq<u8>) -> Raster {
        let at = self.offset(x, y);
        Raster {
            data: Seq::new(
                self.data.len(),
                |k: int|
                    if at <= k < at + self.stored() {
                        channels[k - at]
                    } else {
                        self.data[k]
                    },
            ),
            ..self
        }
    }

    /// The four channels read back from pixel `(x, y)`: the stored bytes,
    /// then zeros.
    pub open spec fn channels(self, x: int, y: int) -> Seq<u8> {
        let at = self.offset(x, y);
        Seq::new(
            4,
            |i: int|
                if i < self.stored() {
                    self.data[at + i]
                } else {
                    0u8
                },
        )
    }
}

/// A pixel buffer of `bpp` bytes per pixel.
#[derive(Debug)]
pub struct TGAImage {
    w: i32,
    h: i32,
    bpp: u8,
    data: Vec<u8>,
}

impl View for TGAImage {
    type V = Raster;

    closed spec fn view(&self) -> Raster {
        Raster { width: self.w as int, height: self.h as int, bpp: self.bpp as int, data: self.data@ }
    }
}

impl TGAImage {
    /// The extent is not negative and the buffer holds exactly the
    /// image's pixels.
    #[verifier::type_invariant]
    pub closed spec fn inv(&self) -> bool {
        &&& 0 <= self.w
        &&& 0 <= self.h
        &&& self.data@.len() == self.w * self.h * self.bpp
    }

    /// What the type's invariant says of the view: it is well formed,
    /// and its extent and depth fit the fields that hold them.
    pub proof fn lemma_inv(&self)
        requires
            self.inv(),
        ensures
            self@.wf(),
            self@.width <= i32::MAX,
            self@.height <= i32::MAX,
            self@.bpp <= u8::MAX,
    {
    }

    pub closed spec fn spec_width(&self) -> i32 {
        self.w
    }

    pub closed spec fn spec_height(&self) -> i32 {
        self.h
    }

    pub closed spec fn spec_bpp(&self) -> u8 {
        self.bpp
    }

    /// A black image of the given extent. The number of its bytes has to
    /// fit the machine's `usize`.
    pub fn new(width: i32, height: i32, format: Format) -> (img: Self)
        requires
            0 <= width,
            0 <= height,
            width * height * format.spec_bpp() <= usize::MAX,
        ensures
            img@.wf(),
            img@.width == width,
            img@.height == height,
            img@.bpp == format.spec_bpp(),
            forall|k: int| 0 <= k < img@.data.len() ==> img@.data[k] == 0,
    {
        let bpp: u8 = format.bpp();
        assert(0 <= width * height <= width * height * bpp) by (nonlinear_arith)
            requires
                0 <= width,
                0 <= height,
                1 <= bpp,
        ;
        let pixels: usize = width as usize * height as usize;
        let data_len: usize = pixels * bpp as usize;
        TGAImage { w: width, h: height, bpp, data: vec![0u8; data_len] }
    }

    #[verifier::when_used_as_spec(spec_width)]
    pub fn width(&self) -> (w: i32)
        ensures
            w == self.spec_width(),
            w == self@.width,
    {
        self.w
    }

    #[verifier::when_used_as_spec(spec_height)]
    pub fn height(&self) -> (h: i32)
        ensures
            h == self.spec_height(),
            h == self@.height,
    {
        self.h
    }

    /// Bytes per pixel.
    #[verifier::when_used_as_spec(spec_bpp)]
    pub fn bpp(&self) -> (b: u8)
        ensures
            b == self.spec_bpp(),
            b == self@.bpp,
    {
        self.bpp
    }

    /// Byte index of pixel `(x, y)`, if the pixel lies inside the extent.
    fn locate(&self, x: u64, y: u64) -> (at: Option<usize>)
        ensures
            at is Some <==> self@.contains(x as int, y as int),
            at is Some ==> at->0 == self@.offset(x as int, y as int),
            at is Some ==> at->0 + self.bpp <= self.data@.len(),
    {
        proof {
            use_type_invariant(self);
        }
        if x >= self.w as u64 || y >= self.h as u64 {
            return None;
        }
        proof {
            self@.lemma_contained(x as int, y as int);
            assert(self.data@.len() == self.data.len());
        }
        let width: u64 = self.w as u64;
        assert(y * width <= 0x8000_0000 * 0x8000_0000) by (nonlinear_arith)
            requires
                y < 0x8000_0000,
                width < 0x8000_0000,
        ;
        let pixel: u64 = x + y * width;
        if self.bpp == 0 {
            assert(pixel * 0 == 0);
            return Some(0);
        }
        assert(pixel <= pixel * self.bpp) by (nonlinear_arith)
            requires
                0 <= pixel,
                1 <= self.bpp,
        ;
        Some(pixel as usize * self.bpp as usize)
    }

    /// Writes `color` at `(x, y)`: as many of its channels as a pixel
    /// holds, blue first. Nothing changes when the pixel is not there.
    pub fn set(&mut self, x: usize, y: usize, color: TGAColor) -> (r: Result<(), String>)
        ensures
            r is Ok <==> old(self)@.contains(x as int, y as int),
            r is Ok ==> final(self)@ == old(self)@.put(x as int, y as int, color@),
            r is Err ==> final(self)@ == old(self)@,
            r is Err ==> r->Err_0@ == "Coordinates out of bounds"@,
    {
        proof {
            use_type_invariant(&*self);
        }
        let at: usize = match self.locate(x as u64, y as u64) {
            Some(at) => at,
            None => {
                return Err("Coordinates out of bounds".to_owned());
            },
        };
        let stored: usize = if self.bpp < 4 {
            self.bpp as usize
        } else {
            4
        };
        let ghost before = self@;
        let mut i: usize = 0;
        while i < stored
            invariant
                i <= stored <= 4,
                stored == before.stored(),
                at == before.offset(x as int, y as int),
                at + stored <= self.data.len(),
                self.inv(),
                self@.width == before.width,
                self@.height == before.height,
                self@.bpp == before.bpp,
                self@.data.len() == before.data.len(),
                forall|k: int|
                    0 <= k < before.data.len() ==> self@.data[k] == (if at <= k < at + i {
                        color@[k - at]
                    } else {
                        before.data[k]
                    }),
            decreases stored - i,
        {
            self.data[at + i] = color.bgra[i];
            i += 1;
        }
        assert(self@.data =~= before.put(x as int, y as int, color@).data);
        Ok(())
    }

    /// Reads the pixel at `(x, y)`; `None` when it is not there or the
    /// image holds no bytes.
    pub fn get(&self, x: i32, y: i32) -> (r: Option<TGAColor>)
        ensures
            r is Some <==> self@.contains(x as int, y as int) && self@.data.len() > 0,
            r is Some ==> r->0@ == self@.channels(x as int, y as int),
            r is Some ==> r->0.spec_bytespp() == self@.bpp,
    {
        if x < 0 || y < 0 || self.data.len() == 0 {
            return None;
        }
        let at: usize = match self.locate(x as u64, y as u64) {
            Some(at) => at,
            None => {
                return None;
            },
        };
        let stored: usize = if self.bpp < 4 {
            self.bpp as usize
        } else {
            4
        };
        let mut bgra: [u8; 4] = [0, 0, 0, 0];
        let mut i: usize = 0;
        while i < stored
            invariant
                i <= stored <= 4,
                stored == self@.stored(),
                at == self@.offset(x as int, y as int),
                at + stored <= self.data.len(),
                forall|k: int|
                    0 <= k < 4 ==> bgra@[k] == (if k < i {
                        self@.data[at + k]
                    } else {
                        0u8
                    }),
            decreases stored - i,
        {
            bgra[i] = self.data[at + i];
            i += 1;
        }
        assert(bgra@ =~= self@.channels(x as int, y as int));
        Some(TGAColor::from_channels(bgra, self.bpp))
    }
}

} // verus!
