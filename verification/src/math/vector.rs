//! Generic vector primitives: [`Vector2`], [`Vector3`], [`Vector4`].
use vstd::prelude::*;

verus! {

/// `x` fits an `i32`.
pub open spec fn fits(x: int) -> bool {
    i32::MIN <= x <= i32::MAX
}

/// The sum `p0 + p1 + p2` and every step of it fit an `i32`, the products
/// included.
pub open spec fn sum3_fits(p0: int, p1: int, p2: int) -> bool {
    &&& fits(p0) && fits(p1) && fits(p2)
    &&& fits(p0 + p1) && fits(p0 + p1 + p2)
}

/// The sum `p0 + p1 + p2 + p3`, every step of it and every term fit.
pub open spec fn sum4_fits(p0: int, p1: int, p2: int, p3: int) -> bool {
    &&& sum3_fits(p0, p1, p2)
    &&& fits(p3) && fits(p0 + p1 + p2 + p3)
}

/// One component of `a + (b - a) * t`, and every step of it, fits.
pub open spec fn lerp_fits(a: int, b: int, t: int) -> bool {
    fits(b - a) && fits((b - a) * t) && fits(a + (b - a) * t)
}

/// A 2-component generic vector.
#[derive(Debug, Clone, Copy, PartialEq, Eq, Structural)]
pub struct Vector2<T> {
    pub x: T,
    pub y: T,
}

/// A 3-component generic vector.
#[derive(Debug, Clone, Copy, PartialEq, Eq, Structural)]
pub struct Vector3<T> {
    pub x: T,
    pub y: T,
    pub z: T,
}

/// A 4-component generic vector (`w` is the homogeneous component).
#[derive(Debug, Clone, Copy, PartialEq, Eq, Structural)]
pub struct Vector4<T> {
    pub x: T,
    pub y: T,
    pub z: T,
    pub w: T,
}

/// `i32` 2-component vector.
pub type Vector2I = Vector2<i32>;

/// `i32` 3-component vector.
pub type Vector3I = Vector3<i32>;

/// `i32` 4-component vector.
pub type Vector4I = Vector4<i32>;

impl Vector2<i32> {
    /// Constructs a vector from its components.
    pub fn new(x: i32, y: i32) -> (v: Self)
        ensures
            v.x == x && v.y == y,
    {
        Vector2 { x, y }
    }

    /// Splats a single value into every component.
    pub fn splat(v: i32) -> (r: Self)
        ensures
            r.x == v && r.y == v,
    {
        Vector2 { x: v, y: v }
    }

    /// Component-wise dot product.
    pub fn dot(&self, rhs: &Self) -> (r: i32)
        requires
            fits(self.x * rhs.x) && fits(self.y * rhs.y) && fits(self.x * rhs.x + self.y * rhs.y),
        ensures
            r == self.x * rhs.x + self.y * rhs.y,
    {
        let p0 = self.x * rhs.x;
        let p1 = self.y * rhs.y;
        0 + p0 + p1
    }

    /// Squared length.
    pub fn length_sqr(&self) -> (r: i32)
        requires
            fits(self.x * self.x) && fits(self.y * self.y) && fits(self.x * self.x + self.y * self.y),
        ensures
            r == self.x * self.x + self.y * self.y,
    {
        self.dot(self)
    }

    /// Component-wise linear interpolation: `self + (rhs - self) * t`.
    pub fn lerp(&self, rhs: &Self, t: i32) -> (r: Self)
        requires
            lerp_fits(self.x as int, rhs.x as int, t as int),
            lerp_fits(self.y as int, rhs.y as int, t as int),
        ensures
            r.x == self.x + (rhs.x - self.x) * t,
            r.y == self.y + (rhs.y - self.y) * t,
    {
        Vector2 { x: self.x + (rhs.x - self.x) * t, y: self.y + (rhs.y - self.y) * t }
    }

    /// Perpendicular vector `(-y, x)`.
    pub fn perpendicular(&self) -> (r: Self)
        requires
            self.y != i32::MIN,
        ensures
            r.x == -self.y && r.y == self.x,
    {
        Vector2 { x: -self.y, y: self.x }
    }
}

impl Vector3<i32> {
    /// Constructs a vector from its components.
    pub fn new(x: i32, y: i32, z: i32) -> (v: Self)
        ensures
            v.x == x && v.y == y && v.z == z,
    {
        Vector3 { x, y, z }
    }

    /// Splats a single value into every component.
    pub fn splat(v: i32) -> (r: Self)
        ensures
            r.x == v && r.y == v && r.z == v,
    {
        Vector3 { x: v, y: v, z: v }
    }

    /// Component-wise dot product.
    pub fn dot(&self, rhs: &Self) -> (r: i32)
        requires
            sum3_fits(self.x * rhs.x, self.y * rhs.y, self.z * rhs.z),
        ensures
            r == self.x * rhs.x + self.y * rhs.y + self.z * rhs.z,
    {
        let p0 = self.x * rhs.x;
        let p1 = self.y * rhs.y;
        let p2 = self.z * rhs.z;
        0 + p0 + p1 + p2
    }

    /// Squared length.
    pub fn length_sqr(&self) -> (r: i32)
        requires
            sum3_fits(self.x * self.x, self.y * self.y, self.z * self.z),
        ensures
            r == self.x * self.x + self.y * self.y + self.z * self.z,
    {
        self.dot(self)
    }

    /// Component-wise linear interpolation: `self + (rhs - self) * t`.
    pub fn lerp(&self, rhs: &Self, t: i32) -> (r: Self)
        requires
            fits(rhs.x - self.x) && fits(rhs.y - self.y) && fits(rhs.z - self.z),
            fits((rhs.x - self.x) * t) && fits((rhs.y - self.y) * t) && fits((rhs.z - self.z) * t),
            fits(self.x + (rhs.x - self.x) * t) && fits(self.y + (rhs.y - self.y) * t) && fits(self.z + (rhs.z - self.z) * t),
        ensures
            r.x == self.x + (rhs.x - self.x) * t,
            r.y == self.y + (rhs.y - self.y) * t,
            r.z == self.z + (rhs.z - self.z) * t,
    {
        Vector3 {
            x: self.x + (rhs.x - self.x) * t,
            y: self.y + (rhs.y - self.y) * t,
            z: self.z + (rhs.z - self.z) * t,
        }
    }

    /// Component-wise cross product.
    pub fn cross(&self, rhs: &Self) -> (r: Self)
        requires
            fits(self.y * rhs.z) && fits(self.z * rhs.y) && fits(self.y * rhs.z - self.z * rhs.y),
            fits(self.z * rhs.x) && fits(self.x * rhs.z) && fits(self.z * rhs.x - self.x * rhs.z),
            fits(self.x * rhs.y) && fits(self.y * rhs.x) && fits(self.x * rhs.y - self.y * rhs.x),
        ensures
            r.x == self.y * rhs.z - self.z * rhs.y,
            r.y == self.z * rhs.x - self.x * rhs.z,
            r.z == self.x * rhs.y - self.y * rhs.x,
    {
        Vector3 {
            x: self.y * rhs.z - self.z * rhs.y,
            y: self.z * rhs.x - self.x * rhs.z,
            z: self.x * rhs.y - self.y * rhs.x,
        }
    }
}

impl core::ops::Add for Vector3<i32> {
    type Output = Vector3<i32>;

    fn add(self, rhs: Vector3<i32>) -> (r: Vector3<i32>) {
        Vector3 { x: self.x + rhs.x, y: self.y + rhs.y, z: self.z + rhs.z }
    }
}

impl vstd::std_specs::ops::AddSpecImpl for Vector3<i32> {
    open spec fn obeys_add_spec() -> bool {
        true
    }

    open spec fn add_req(self, rhs: Vector3<i32>) -> bool {
        fits(self.x + rhs.x) && fits(self.y + rhs.y) && fits(self.z + rhs.z)
    }

    open spec fn add_spec(self, rhs: Vector3<i32>) -> Vector3<i32> {
        Vector3 { x: (self.x + rhs.x) as i32, y: (self.y + rhs.y) as i32, z: (self.z + rhs.z) as i32 }
    }
}

impl core::ops::Sub for Vector3<i32> {
    type Output = Vector3<i32>;

    fn sub(self, rhs: Vector3<i32>) -> (r: Vector3<i32>) {
        Vector3 { x: self.x - rhs.x, y: self.y - rhs.y, z: self.z - rhs.z }
    }
}

impl vstd::std_specs::ops::SubSpecImpl for Vector3<i32> {
    open spec fn obeys_sub_spec() -> bool {
        true
    }

    open spec fn sub_req(self, rhs: Vector3<i32>) -> bool {
        fits(self.x - rhs.x) && fits(self.y - rhs.y) && fits(self.z - rhs.z)
    }

    open spec fn sub_spec(self, rhs: Vector3<i32>) -> Vector3<i32> {
        Vector3 { x: (self.x - rhs.x) as i32, y: (self.y - rhs.y) as i32, z: (self.z - rhs.z) as i32 }
    }
}

impl core::ops::Neg for Vector3<i32> {
    type Output = Vector3<i32>;

    fn neg(self) -> (r: Vector3<i32>) {
        Vector3 { x: -self.x, y: -self.y, z: -self.z }
    }
}

impl vstd::std_specs::ops::NegSpecImpl for Vector3<i32> {
    open spec fn obeys_neg_spec() -> bool {
        true
    }

    open spec fn neg_req(self) -> bool {
        self.x != i32::MIN && self.y != i32::MIN && self.z != i32::MIN
    }

    open spec fn neg_spec(self) -> Vector3<i32> {
        Vector3 { x: (-self.x) as i32, y: (-self.y) as i32, z: (-self.z) as i32 }
    }
}

impl Vector4<i32> {
    /// Constructs a vector from its components.
    pub fn new(x: i32, y: i32, z: i32, w: i32) -> (v: Self)
        ensures
            v.x == x && v.y == y && v.z == z && v.w == w,
    {
        Vector4 { x, y, z, w }
    }

    /// Splats a single value into every component.
    pub fn splat(v: i32) -> (r: Self)
        ensures
            r.x == v && r.y == v && r.z == v && r.w == v,
    {
        Vector4 { x: v, y: v, z: v, w: v }
    }

    /// Component-wise dot product.
    pub fn dot(&self, rhs: &Self) -> (r: i32)
        requires
            sum4_fits(self.x * rhs.x, self.y * rhs.y, self.z * rhs.z, self.w * rhs.w),
        ensures
            r == self.x * rhs.x + self.y * rhs.y + self.z * rhs.z + self.w * rhs.w,
    {
        let p0 = self.x * rhs.x;
        let p1 = self.y * rhs.y;
        let p2 = self.z * rhs.z;
        let p3 = self.w * rhs.w;
        0 + p0 + p1 + p2 + p3
    }

    /// Squared length.
    pub fn length_sqr(&self) -> (r: i32)
        requires
            sum4_fits(self.x * self.x, self.y * self.y, self.z * self.z, self.w * self.w),
        ensures
            r == self.x * self.x + self.y * self.y + self.z * self.z + self.w * self.w,
    {
        self.dot(self)
    }

    /// Component-wise linear interpolation: `self + (rhs - self) * t`.
    pub fn lerp(&self, rhs: &Self, t: i32) -> (r: Self)
        requires
            lerp_fits(self.x as int, rhs.x as int, t as int),
            lerp_fits(self.y as int, rhs.y as int, t as int),
            lerp_fits(self.z as int, rhs.z as int, t as int),
            lerp_fits(self.w as int, rhs.w as int, t as int),
        ensures
            r.x == self.x + (rhs.x - self.x) * t,
            r.y == self.y + (rhs.y - self.y) * t,
            r.z == self.z + (rhs.z - self.z) * t,
            r.w == self.w + (rhs.w - self.w) * t,
    {
        Vector4 {
            x: self.x + (rhs.x - self.x) * t,
            y: self.y + (rhs.y - self.y) * t,
            z: self.z + (rhs.z - self.z) * t,
            w: self.w + (rhs.w - self.w) * t,
        }
    }
}

impl core::ops::Mul<i32> for Vector3<i32> {
    type Output = Vector3<i32>;

    fn mul(self, s: i32) -> (r: Vector3<i32>) {
        Vector3 { x: self.x * s, y: self.y * s, z: self.z * s }
    }
}

impl vstd::std_specs::ops::MulSpecImpl<i32> for Vector3<i32> {
    open spec fn obeys_mul_spec() -> bool {
        true
    }

    open spec fn mul_req(self, s: i32) -> bool {
        fits(self.x * s) && fits(self.y * s) && fits(self.z * s)
    }

    open spec fn mul_spec(self, s: i32) -> Vector3<i32> {
        Vector3 { x: (self.x * s) as i32, y: (self.y * s) as i32, z: (self.z * s) as i32 }
    }
}

impl core::ops::Mul for Vector3<i32> {
    type Output = Vector3<i32>;

    fn mul(self, rhs: Vector3<i32>) -> (r: Vector3<i32>) {
        Vector3 { x: self.x * rhs.x, y: self.y * rhs.y, z: self.z * rhs.z }
    }
}

impl vstd::std_specs::ops::MulSpecImpl for Vector3<i32> {
    open spec fn obeys_mul_spec() -> bool {
        true
    }

    open spec fn mul_req(self, rhs: Vector3<i32>) -> bool {
        fits(self.x * rhs.x) && fits(self.y * rhs.y) && fits(self.z * rhs.z)
    }

    open spec fn mul_spec(self, rhs: Vector3<i32>) -> Vector3<i32> {
        Vector3 { x: (self.x * rhs.x) as i32, y: (self.y * rhs.y) as i32, z: (self.z * rhs.z) as i32 }
    }
}

} // verus!
