//! A triangle mesh: positions, normals and texture coordinates over any
//! element type, faces as index triples, and an optional diffuse texture.
use crate::geometry::{Vec2, Vec2i, Vec3, Vec3i};
use crate::tga::codec::{decoded, DecodeError};
use crate::tga::{Raster, TGAColor, TGAImage};
use vstd::prelude::*;

pub mod obj;

verus! {

/// A mesh. Each corner of a face is a triple of indices: `x` into the
/// positions, `y` into the texture coordinates, `z` into the normals.
#[derive(Debug)]
pub struct Model<T> {
    verts: Vec<Vec3<T>>,
    faces: Vec<Vec<Vec3i>>,
    norms: Vec<Vec3<T>>,
    uv: Vec<Vec2<T>>,
    diffusemap: Option<TGAImage>,
}

/// The colour that a texture gives at `(u, v)`: the pixel there, or all
/// zeros when there is no texture or no pixel at that place.
pub open spec fn texel(texture: Option<Raster>, u: int, v: int) -> Seq<u8> {
    match texture {
        Some(map) => if map.contains(u, v) && map.data.len() > 0 {
            map.channels(u, v)
        } else {
            seq![0u8, 0u8, 0u8, 0u8]
        },
        None => seq![0u8, 0u8, 0u8, 0u8],
    }
}

impl<T: Copy> Model<T> {
    pub closed spec fn spec_verts(&self) -> Seq<Vec3<T>> {
        self.verts@
    }

    pub closed spec fn spec_faces(&self) -> Seq<Seq<Vec3i>> {
        Seq::new(self.faces@.len(), |i: int| self.faces@[i]@)
    }

    pub closed spec fn spec_norms(&self) -> Seq<Vec3<T>> {
        self.norms@
    }

    pub closed spec fn spec_uv(&self) -> Seq<Vec2<T>> {
        self.uv@
    }

    /// The bound texture, if any.
    pub closed spec fn spec_texture(&self) -> Option<Raster> {
        match self.diffusemap {
            Some(map) => Some(map@),
            None => None,
        }
    }

    /// Index triple of corner `nthvert` of face `iface`.
    pub open spec fn corner(&self, iface: int, nthvert: int) -> Vec3i {
        self.spec_faces()[iface][nthvert]
    }

    /// Face `iface` has a corner `nthvert`.
    pub open spec fn has_corner(&self, iface: int, nthvert: int) -> bool {
        0 <= iface < self.spec_faces().len() && 0 <= nthvert < self.spec_faces()[iface].len()
    }

    /// A mesh from its parts, with no texture bound.
    pub fn from_parts(
        verts: Vec<Vec3<T>>,
        faces: Vec<Vec<Vec3i>>,
        norms: Vec<Vec3<T>>,
        uv: Vec<Vec2<T>>,
    ) -> (m: Self)
        ensures
            m.spec_verts() == verts@,
            m.spec_faces() == Seq::new(faces@.len(), |i: int| faces@[i]@),
            m.spec_norms() == norms@,
            m.spec_uv() == uv@,
            m.spec_texture() is None,
    {
        Model { verts, faces, norms, uv, diffusemap: None }
    }

    /// Binds the image that `bytes` decode to as the diffuse texture. When
    /// they do not decode, the error comes back and the model is as before.
    pub fn load_texture(&mut self, bytes: &[u8]) -> (r: Result<(), DecodeError>)
        ensures
            final(self).spec_verts() == old(self).spec_verts(),
            final(self).spec_faces() == old(self).spec_faces(),
            final(self).spec_norms() == old(self).spec_norms(),
            final(self).spec_uv() == old(self).spec_uv(),
            match decoded(bytes@) {
                Ok(img) => r is Ok && final(self).spec_texture() == Some(img),
                Err(e) => r == Err::<(), DecodeError>(e) && final(self).spec_texture() == old(
                    self,
                ).spec_texture(),
            },
    {
        match TGAImage::decode(bytes) {
            Ok(img) => {
                self.diffusemap = Some(img);
                Ok(())
            },
            Err(e) => Err(e),
        }
    }

    /// The bound texture, if any.
    pub fn texture(&self) -> (t: Option<&TGAImage>)
        ensures
            t is Some <==> self.spec_texture() is Some,
            t is Some ==> t->0@ == self.spec_texture()->0,
    {
        self.diffusemap.as_ref()
    }

    /// The texture's colour at pixel `uv`; all channels zero where the
    /// texture has no such pixel or no texture is bound. The colour
    /// declares the texture's bytes per pixel, or 3 without a texture.
    pub fn diffuse(&self, uv: Vec2i) -> (c: TGAColor)
        ensures
            c@ == texel(self.spec_texture(), uv.x as int, uv.y as int),
            c.spec_bytespp() == match self.spec_texture() {
                Some(map) => map.bpp,
                None => 3,
            },
    {
        match &self.diffusemap {
            Some(map) => {
                match map.get(uv.x, uv.y) {
                    Some(c) => c,
                    None => TGAColor::from_bpp(map.bpp()),
                }
            },
            None => TGAColor::from_bpp(3),
        }
    }

    /// The texture pixel of corner `nthvert` of face `iface`: the corner's
    /// texture coordinate with its `x` scaled by the texture's width and
    /// its `y` by the texture's height, each through `scale`; `(0, 0)`
    /// when no texture is bound.
    pub fn uv<F: Fn(T, i32) -> i32>(&self, iface: usize, nthvert: usize, scale: F) -> (r: Vec2i)
        requires
            self.has_corner(iface as int, nthvert as int),
            0 <= self.corner(iface as int, nthvert as int).y < self.spec_uv().len(),
            forall|coordinate: T, extent: i32| scale.requires((coordinate, extent)),
        ensures
            match self.spec_texture() {
                Some(map) => {
                    let at = self.spec_uv()[self.corner(iface as int, nthvert as int).y as int];
                    &&& scale.ensures((at.x, map.width as i32), r.x)
                    &&& scale.ensures((at.y, map.height as i32), r.y)
                },
                None => r == (Vec2 { x: 0i32, y: 0i32 }),
            },
    {
        let idx: usize = self.faces[iface][nthvert].y as usize;
        let at: Vec2<T> = self.uv[idx];
        match &self.diffusemap {
            Some(map) => Vec2 { x: scale(at.x, map.width()), y: scale(at.y, map.height()) },
            None => Vec2 { x: 0, y: 0 },
        }
    }

    pub fn nverts(&self) -> (n: usize)
        ensures
            n == self.spec_verts().len(),
    {
        self.verts.len()
    }

    pub fn nfaces(&self) -> (n: usize)
        ensures
            n == self.spec_faces().len(),
    {
        self.faces.len()
    }

    pub fn nnorms(&self) -> (n: usize)
        ensures
            n == self.spec_norms().len(),
    {
        self.norms.len()
    }

    pub fn ntexcoords(&self) -> (n: usize)
        ensures
            n == self.spec_uv().len(),
    {
        self.uv.len()
    }

    pub fn vert(&self, idx: usize) -> (v: Vec3<T>)
        requires
            idx < self.spec_verts().len(),
        ensures
            v == self.spec_verts()[idx as int],
    {
        self.verts[idx]
    }

    /// The corners of face `idx`, in order.
    pub fn face(&self, idx: usize) -> (f: &Vec<Vec3i>)
        requires
            idx < self.spec_faces().len(),
        ensures
            f@ == self.spec_faces()[idx as int],
    {
        &self.faces[idx]
    }

    /// The normal at corner `nvert` of face `iface`.
    pub fn norm(&self, iface: usize, nvert: usize) -> (n: Vec3<T>)
        requires
            self.has_corner(iface as int, nvert as int),
            0 <= self.corner(iface as int, nvert as int).z < self.spec_norms().len(),
        ensures
            n == self.spec_norms()[self.corner(iface as int, nvert as int).z as int],
    {
        let idx: usize = self.faces[iface][nvert].get(2) as usize;
        self.norms[idx]
    }
}

} // verus!
