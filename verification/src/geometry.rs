//! Vectors of two and three components over any element type, with the
//! arithmetic that the element type offers.
use std::ops::{Add, BitXor, Mul, Sub};
use vstd::prelude::*;
use vstd::std_specs::ops::{AddSpec, MulSpec, SubSpec};

verus! {

#[derive(Debug, Clone, Copy, PartialEq)]
pub struct Vec2<T> {
    pub x: T,
    pub y: T,
}

pub type Vec2i = Vec2<i32>;

impl<T: Copy> Vec2<T> {
    pub fn new(u: T, v: T) -> (r: Self)
        ensures
            r == (Vec2 { x: u, y: v }),
    {
        Vec2 { x: u, y: v }
    }

    /// Component `idx`: 0 is `x`, 1 is `y`.
    pub open spec fn component(self, idx: int) -> T {
        if idx == 0 {
            self.x
        } else {
            self.y
        }
    }

    pub fn get(&self, idx: usize) -> (r: T)
        requires
            idx < 2,
        ensures
            r == self.component(idx as int),
    {
        if idx == 0 {
            self.x
        } else {
            self.y
        }
    }

    pub fn set(&mut self, idx: usize, value: T)
        requires
            idx < 2,
        ensures
            final(self).component(idx as int) == value,
            final(self).component(1 - idx) == old(self).component(1 - idx),
    {
        if idx == 0 {
            self.x = value;
        } else {
            self.y = value;
        }
    }
}

impl<T> Vec2<T> {
    pub fn x(&self) -> (r: &T)
        ensures
            *r == self.x,
    {
        &self.x
    }

    pub fn y(&self) -> (r: &T)
        ensures
            *r == self.y,
    {
        &self.y
    }
}

impl<T: Copy + Add<Output = T>> vstd::std_specs::ops::AddSpecImpl for Vec2<T> {
    open spec fn obeys_add_spec() -> bool {
        T::obeys_add_spec()
    }

    open spec fn add_req(self, other: Self) -> bool {
        self.x.add_req(other.x) && self.y.add_req(other.y)
    }

    open spec fn add_spec(self, other: Self) -> Self {
        Vec2 { x: self.x.add_spec(other.x), y: self.y.add_spec(other.y) }
    }
}

impl<T: Copy + Add<Output = T>> Add for Vec2<T> {
    type Output = Self;

    /// Componentwise sum.
    fn add(self, other: Self) -> Self {
        Vec2::new(self.x + other.x, self.y + other.y)
    }
}

impl<T: Copy + Sub<Output = T>> vstd::std_specs::ops::SubSpecImpl for Vec2<T> {
    open spec fn obeys_sub_spec() -> bool {
        T::obeys_sub_spec()
    }

    open spec fn sub_req(self, other: Self) -> bool {
        self.x.sub_req(other.x) && self.y.sub_req(other.y)
    }

    open spec fn sub_spec(self, other: Self) -> Self {
        Vec2 { x: self.x.sub_spec(other.x), y: self.y.sub_spec(other.y) }
    }
}

impl<T: Copy + Sub<Output = T>> Sub for Vec2<T> {
    type Output = Self;

    /// Componentwise difference.
    fn sub(self, other: Self) -> Self {
        Vec2::new(self.x - other.x, self.y - other.y)
    }
}

#[derive(Debug, Clone, Copy, PartialEq)]
pub struct Vec3<T> {
    pub x: T,
    pub y: T,
    pub z: T,
}

pub type Vec3i = Vec3<i32>;

impl<T: Copy> Vec3<T> {
    pub fn new(x: T, y: T, z: T) -> (r: Self)
        ensures
            r == (Vec3 { x, y, z }),
    {
        Vec3 { x, y, z }
    }

    /// Component `index`: 0 is `x`, 1 is `y`, 2 is `z`.
    pub open spec fn component(self, index: int) -> T {
        if index == 0 {
            self.x
        } else if index == 1 {
            self.y
        } else {
            self.z
        }
    }

    pub fn get(&self, index: usize) -> (r: T)
        requires
            index < 3,
        ensures
            r == self.component(index as int),
    {
        if index == 0 {
            self.x
        } else if index == 1 {
            self.y
        } else {
            self.z
        }
    }
}

impl<T: Copy + Add<Output = T>> vstd::std_specs::ops::AddSpecImpl for Vec3<T> {
    open spec fn obeys_add_spec() -> bool {
        T::obeys_add_spec()
    }

    open spec fn add_req(self, other: Self) -> bool {
        self.x.add_req(other.x) && self.y.add_req(other.y) && self.z.add_req(other.z)
    }

    open spec fn add_spec(self, other: Self) -> Self {
        Vec3 {
            x: self.x.add_spec(other.x),
            y: self.y.add_spec(other.y),
            z: self.z.add_spec(other.z),
        }
    }
}

impl<T: Copy + Add<Output = T>> Add for Vec3<T> {
    type Output = Self;

    /// Componentwise sum.
    fn add(self, other: Self) -> Self {
        Vec3::new(self.x + other.x, self.y + other.y, self.z + other.z)
    }
}

impl<T: Copy + Sub<Output = T>> vstd::std_specs::ops::SubSpecImpl for Vec3<T> {
    open spec fn obeys_sub_spec() -> bool {
        T::obeys_sub_spec()
    }

    open spec fn sub_req(self, other: Self) -> bool {
        self.x.sub_req(other.x) && self.y.sub_req(other.y) && self.z.sub_req(other.z)
    }

    open spec fn sub_spec(self, other: Self) -> Self {
        Vec3 {
            x: self.x.sub_spec(other.x),
            y: self.y.sub_spec(other.y),
            z: self.z.sub_spec(other.z),
        }
    }
}

impl<T: Copy + Sub<Output = T>> Sub for Vec3<T> {
    type Output = Self;

    /// Componentwise difference.
    fn sub(self, other: Self) -> Self {
        Vec3::new(self.x - other.x, self.y - other.y, self.z - other.z)
    }
}

impl<T: Copy + Add<Output = T> + Mul<Output = T>> vstd::std_specs::ops::MulSpecImpl for Vec3<T> {
    open spec fn obeys_mul_spec() -> bool {
        T::obeys_mul_spec() && T::obeys_add_spec()
    }

    open spec fn mul_req(self, other: Self) -> bool {
        &&& T::obeys_mul_spec()
        &&& T::obeys_add_spec()
        &&& self.x.mul_req(other.x)
        &&& self.y.mul_req(other.y)
        &&& self.z.mul_req(other.z)
        &&& self.x.mul_spec(other.x).add_req(self.y.mul_spec(other.y))
        &&& self.x.mul_spec(other.x).add_spec(self.y.mul_spec(other.y)).add_req(
            self.z.mul_spec(other.z),
        )
    }

    open spec fn mul_spec(self, other: Self) -> T {
        self.x.mul_spec(other.x).add_spec(self.y.mul_spec(other.y)).add_spec(
            self.z.mul_spec(other.z),
        )
    }
}

impl<T: Copy + Add<Output = T> + Mul<Output = T>> Mul for Vec3<T> {
    type Output = T;

    /// Dot product.
    fn mul(self, other: Self) -> T {
        self.x * other.x + self.y * other.y + self.z * other.z
    }
}

impl<T: Copy + Mul<Output = T>> vstd::std_specs::ops::MulSpecImpl<T> for Vec3<T> {
    open spec fn obeys_mul_spec() -> bool {
        T::obeys_mul_spec()
    }

    open spec fn mul_req(self, s: T) -> bool {
        self.x.mul_req(s) && self.y.mul_req(s) && self.z.mul_req(s)
    }

    open spec fn mul_spec(self, s: T) -> Vec3<T> {
        Vec3 { x: self.x.mul_spec(s), y: self.y.mul_spec(s), z: self.z.mul_spec(s) }
    }
}

impl<T: Copy + Mul<Output = T>> Mul<T> for Vec3<T> {
    type Output = Vec3<T>;

    /// Every component times `s`.
    fn mul(self, s: T) -> Vec3<T> {
        Vec3 { x: self.x * s, y: self.y * s, z: self.z * s }
    }
}

impl<T: Copy + Sub<Output = T> + Mul<Output = T>> Vec3<T> {
    /// The six products and three differences of the cross product can be
    /// formed, and the element type's `*` and `-` are specified.
    pub open spec fn cross_req(self, other: Self) -> bool {
        &&& T::obeys_mul_spec()
        &&& T::obeys_sub_spec()
        &&& self.y.mul_req(other.z)
        &&& self.z.mul_req(other.y)
        &&& self.z.mul_req(other.x)
        &&& self.x.mul_req(other.z)
        &&& self.x.mul_req(other.y)
        &&& self.y.mul_req(other.x)
        &&& self.y.mul_spec(other.z).sub_req(self.z.mul_spec(other.y))
        &&& self.z.mul_spec(other.x).sub_req(self.x.mul_spec(other.z))
        &&& self.x.mul_spec(other.y).sub_req(self.y.mul_spec(other.x))
    }

    /// The right-handed cross product, in the element type's arithmetic.
    pub open spec fn cross_spec(self, other: Self) -> Self {
        Vec3 {
            x: self.y.mul_spec(other.z).sub_spec(self.z.mul_spec(other.y)),
            y: self.z.mul_spec(other.x).sub_spec(self.x.mul_spec(other.z)),
            z: self.x.mul_spec(other.y).sub_spec(self.y.mul_spec(other.x)),
        }
    }

    pub fn cross(self, other: Self) -> (r: Self)
        requires
            self.cross_req(other),
        ensures
            r == self.cross_spec(other),
    {
        Self::new(
            self.y * other.z - self.z * other.y,
            self.z * other.x - self.x * other.z,
            self.x * other.y - self.y * other.x,
        )
    }
}

impl<T: Copy + Sub<Output = T> + Mul<Output = T>> vstd::std_specs::ops::BitXorSpecImpl for Vec3<T> {
    open spec fn obeys_bitxor_spec() -> bool {
        true
    }

    open spec fn bitxor_req(self, rhs: Self) -> bool {
        self.cross_req(rhs)
    }

    open spec fn bitxor_spec(self, rhs: Self) -> Self {
        self.cross_spec(rhs)
    }
}

impl<T: Copy + Sub<Output = T> + Mul<Output = T>> BitXor for Vec3<T> {
    type Output = Self;

    /// Cross product, written `a ^ b`.
    fn bitxor(self, rhs: Self) -> Self {
        self.cross(rhs)
    }
}

/// `v` is what 32-bit signed arithmetic can hold.
pub open spec fn fits_i32(v: int) -> bool {
    i32::MIN <= v <= i32::MAX
}

/// For 32-bit integers the cross product is
/// `(ay*bz - az*by, az*bx - ax*bz, ax*by - ay*bx)` whenever the products
/// and the differences fit.
pub proof fn lemma_cross_i32(a: Vec3<i32>, b: Vec3<i32>)
    requires
        fits_i32(a.y * b.z),
        fits_i32(a.z * b.y),
        fits_i32(a.z * b.x),
        fits_i32(a.x * b.z),
        fits_i32(a.x * b.y),
        fits_i32(a.y * b.x),
        fits_i32(a.y * b.z - a.z * b.y),
        fits_i32(a.z * b.x - a.x * b.z),
        fits_i32(a.x * b.y - a.y * b.x),
    ensures
        a.cross_req(b),
        a.cross_spec(b).x == a.y * b.z - a.z * b.y,
        a.cross_spec(b).y == a.z * b.x - a.x * b.z,
        a.cross_spec(b).z == a.x * b.y - a.y * b.x,
{
}

/// For 32-bit integers the dot product is `ax*bx + ay*by + az*bz`
/// whenever the products and the partial sums fit.
pub proof fn lemma_dot_i32(a: Vec3<i32>, b: Vec3<i32>)
    requires
        fits_i32(a.x * b.x),
        fits_i32(a.y * b.y),
        fits_i32(a.z * b.z),
        fits_i32(a.x * b.x + a.y * b.y),
        fits_i32(a.x * b.x + a.y * b.y + a.z * b.z),
    ensures
        vstd::std_specs::ops::MulSpec::<Vec3<i32>>::mul_req(a, b),
        vstd::std_specs::ops::MulSpec::<Vec3<i32>>::mul_spec(a, b) == a.x * b.x + a.y * b.y + a.z
            * b.z,
{
}

} // verus!
