//! Generic quaternion primitives: `(x, y, z, w)` with `w` last.
use vstd::prelude::*;

use super::vector::{fits, sum4_fits, Vector3};

verus! {

/// A generic quaternion `(x, y, z, w)`.
#[derive(Debug, Clone, Copy, PartialEq, Eq, Structural)]
pub struct Quaternion<T> {
    pub x: T,
    pub y: T,
    pub z: T,
    pub w: T,
}

/// The Hamilton product's four component sums, with every step fitting.
pub open spec fn hamilton_fits(a: Quaternion<i32>, b: Quaternion<i32>) -> bool {
    &&& sum4_fits(a.w * b.x, a.x * b.w, a.y * b.z, -(a.z * b.y))
    &&& sum4_fits(a.w * b.y, -(a.x * b.z), a.y * b.w, a.z * b.x)
    &&& sum4_fits(a.w * b.z, a.x * b.y, -(a.y * b.x), a.z * b.w)
    &&& sum4_fits(a.w * b.w, -(a.x * b.x), -(a.y * b.y), -(a.z * b.z))
    &&& fits(a.z * b.y) && fits(a.x * b.z) && fits(a.y * b.x)
    &&& fits(a.x * b.x) && fits(a.y * b.y) && fits(a.z * b.z)
}

impl Quaternion<i32> {
    /// Constructs a quaternion from its `(x, y, z, w)` components.
    pub fn new(x: i32, y: i32, z: i32, w: i32) -> (q: Self)
        ensures
            q.x == x && q.y == y && q.z == z && q.w == w,
    {
        Quaternion { x, y, z, w }
    }

    /// The identity quaternion (no rotation).
    pub fn identity() -> (q: Self)
        ensures
            q.x == 0 && q.y == 0 && q.z == 0 && q.w == 1,
    {
        Quaternion { x: 0, y: 0, z: 0, w: 1 }
    }

    /// Extracts the vector (imaginary) part.
    pub fn xyz(&self) -> (v: Vector3<i32>)
        ensures
            v.x == self.x && v.y == self.y && v.z == self.z,
    {
        Vector3::new(self.x, self.y, self.z)
    }

    /// Hamilton product `self * rhs`.
    pub fn mul(&self, rhs: &Self) -> (r: Self)
        requires
            hamilton_fits(*self, *rhs),
        ensures
            r.x == self.w * rhs.x + self.x * rhs.w + self.y * rhs.z - self.z * rhs.y,
            r.y == self.w * rhs.y - self.x * rhs.z + self.y * rhs.w + self.z * rhs.x,
            r.z == self.w * rhs.z + self.x * rhs.y - self.y * rhs.x + self.z * rhs.w,
            r.w == self.w * rhs.w - self.x * rhs.x - self.y * rhs.y - self.z * rhs.z,
    {
        Quaternion {
            x: self.w * rhs.x + self.x * rhs.w + self.y * rhs.z - self.z * rhs.y,
            y: self.w * rhs.y - self.x * rhs.z + self.y * rhs.w + self.z * rhs.x,
            z: self.w * rhs.z + self.x * rhs.y - self.y * rhs.x + self.z * rhs.w,
            w: self.w * rhs.w - self.x * rhs.x - self.y * rhs.y - self.z * rhs.z,
        }
    }

    /// The Hamilton product, for the `*` operator.
    fn hamilton(a: &Self, b: &Self) -> (r: Self)
        requires
            hamilton_fits(*a, *b),
        ensures
            r.x == a.w * b.x + a.x * b.w + a.y * b.z - a.z * b.y,
            r.y == a.w * b.y - a.x * b.z + a.y * b.w + a.z * b.x,
            r.z == a.w * b.z + a.x * b.y - a.y * b.x + a.z * b.w,
            r.w == a.w * b.w - a.x * b.x - a.y * b.y - a.z * b.z,
    {
        a.mul(b)
    }

    /// Component-wise dot product.
    pub fn dot(&self, rhs: &Self) -> (r: i32)
        requires
            sum4_fits(self.x * rhs.x, self.y * rhs.y, self.z * rhs.z, self.w * rhs.w),
        ensures
            r == self.x * rhs.x + self.y * rhs.y + self.z * rhs.z + self.w * rhs.w,
    {
        self.x * rhs.x + self.y * rhs.y + self.z * rhs.z + self.w * rhs.w
    }

    /// Squared length.
    pub fn length_sqr(&self) -> (r: i32)
        requires
            sum4_fits(self.x * self.x, self.y * self.y, self.z * self.z, self.w * self.w),
        ensures
            r == self.x * self.x + self.y * self.y + self.z * self.z + self.w * self.w,
    {
        self.dot(self)
    }

    /// Conjugate `(-x, -y, -z, w)`.
    pub fn conjugate(&self) -> (r: Self)
        requires
            self.x != i32::MIN && self.y != i32::MIN && self.z != i32::MIN,
        ensures
            r.x == -self.x && r.y == -self.y && r.z == -self.z && r.w == self.w,
    {
        Quaternion { x: -self.x, y: -self.y, z: -self.z, w: self.w }
    }
}

/// Conjugating twice gives the quaternion back.
pub proof fn lemma_conjugate_involution(q: Quaternion<i32>, c: Quaternion<i32>, cc: Quaternion<i32>)
    requires
        c.x == -q.x && c.y == -q.y && c.z == -q.z && c.w == q.w,
        cc.x == -c.x && cc.y == -c.y && cc.z == -c.z && cc.w == c.w,
    ensures
        cc == q,
{
}

/// A quaternion times its conjugate, on either side, is its squared length
/// on the real part and 0 elsewhere: for a unit quaternion the conjugate is
/// the inverse.
pub proof fn lemma_mul_conjugate(q: Quaternion<i32>, c: Quaternion<i32>, p: Quaternion<i32>, p2: Quaternion<i32>)
    requires
        c.x == -q.x && c.y == -q.y && c.z == -q.z && c.w == q.w,
        p.x == q.w * c.x + q.x * c.w + q.y * c.z - q.z * c.y,
        p.y == q.w * c.y - q.x * c.z + q.y * c.w + q.z * c.x,
        p.z == q.w * c.z + q.x * c.y - q.y * c.x + q.z * c.w,
        p.w == q.w * c.w - q.x * c.x - q.y * c.y - q.z * c.z,
        p2.x == c.w * q.x + c.x * q.w + c.y * q.z - c.z * q.y,
        p2.y == c.w * q.y - c.x * q.z + c.y * q.w + c.z * q.x,
        p2.z == c.w * q.z + c.x * q.y - c.y * q.x + c.z * q.w,
        p2.w == c.w * q.w - c.x * q.x - c.y * q.y - c.z * q.z,
    ensures
        p.x == 0 && p.y == 0 && p.z == 0,
        p.w == q.x * q.x + q.y * q.y + q.z * q.z + q.w * q.w,
        p2 == p,
{
    let (x, y, z, w) = (q.x as int, q.y as int, q.z as int, q.w as int);
    assert(w * (-x) + x * w + y * (-z) - z * (-y) == 0) by (nonlinear_arith);
    assert(w * (-y) - x * (-z) + y * w + z * (-x) == 0) by (nonlinear_arith);
    assert(w * (-z) + x * (-y) - y * (-x) + z * w == 0) by (nonlinear_arith);
    assert(w * w - x * (-x) - y * (-y) - z * (-z) == x * x + y * y + z * z + w * w) by (nonlinear_arith);
    assert(w * x + (-x) * w + (-y) * z - (-z) * y == 0) by (nonlinear_arith);
    assert(w * y - (-x) * z + (-y) * w + (-z) * x == 0) by (nonlinear_arith);
    assert(w * z + (-x) * y - (-y) * x + (-z) * w == 0) by (nonlinear_arith);
    assert(w * w - (-x) * x - (-y) * y - (-z) * z == x * x + y * y + z * z + w * w) by (nonlinear_arith);
}

/// The identity is neutral for the Hamilton product on both sides.
pub proof fn lemma_identity_neutral(q: Quaternion<i32>)
    ensures
        ({
            let id = Quaternion::<i32> { x: 0, y: 0, z: 0, w: 1 };
            &&& id.w * q.x + id.x * q.w + id.y * q.z - id.z * q.y == q.x
            &&& id.w * q.y - id.x * q.z + id.y * q.w + id.z * q.x == q.y
            &&& id.w * q.z + id.x * q.y - id.y * q.x + id.z * q.w == q.z
            &&& id.w * q.w - id.x * q.x - id.y * q.y - id.z * q.z == q.w
            &&& q.w * id.x + q.x * id.w + q.y * id.z - q.z * id.y == q.x
            &&& q.w * id.y - q.x * id.z + q.y * id.w + q.z * id.x == q.y
            &&& q.w * id.z + q.x * id.y - q.y * id.x + q.z * id.w == q.z
            &&& q.w * id.w - q.x * id.x - q.y * id.y - q.z * id.z == q.w
        }),
{
}

impl core::ops::Add for Quaternion<i32> {
    type Output = Quaternion<i32>;

    fn add(self, rhs: Quaternion<i32>) -> (r: Quaternion<i32>) {
        Quaternion { x: self.x + rhs.x, y: self.y + rhs.y, z: self.z + rhs.z, w: self.w + rhs.w }
    }
}

impl vstd::std_specs::ops::AddSpecImpl for Quaternion<i32> {
    open spec fn obeys_add_spec() -> bool {
        true
    }

    open spec fn add_req(self, rhs: Quaternion<i32>) -> bool {
        fits(self.x + rhs.x) && fits(self.y + rhs.y) && fits(self.z + rhs.z) && fits(self.w + rhs.w)
    }

    open spec fn add_spec(self, rhs: Quaternion<i32>) -> Quaternion<i32> {
        Quaternion {
            x: (self.x + rhs.x) as i32,
            y: (self.y + rhs.y) as i32,
            z: (self.z + rhs.z) as i32,
            w: (self.w + rhs.w) as i32,
        }
    }
}

impl core::ops::Neg for Quaternion<i32> {
    type Output = Quaternion<i32>;

    fn neg(self) -> (r: Quaternion<i32>) {
        Quaternion { x: -self.x, y: -self.y, z: -self.z, w: -self.w }
    }
}

impl vstd::std_specs::ops::NegSpecImpl for Quaternion<i32> {
    open spec fn obeys_neg_spec() -> bool {
        true
    }

    open spec fn neg_req(self) -> bool {
        self.x != i32::MIN && self.y != i32::MIN && self.z != i32::MIN && self.w != i32::MIN
    }

    open spec fn neg_spec(self) -> Quaternion<i32> {
        Quaternion { x: (-self.x) as i32, y: (-self.y) as i32, z: (-self.z) as i32, w: (-self.w) as i32 }
    }
}

impl core::ops::Mul<i32> for Quaternion<i32> {
    type Output = Quaternion<i32>;

    fn mul(self, s: i32) -> (r: Quaternion<i32>) {
        Quaternion { x: self.x * s, y: self.y * s, z: self.z * s, w: self.w * s }
    }
}

impl vstd::std_specs::ops::MulSpecImpl<i32> for Quaternion<i32> {
    open spec fn obeys_mul_spec() -> bool {
        true
    }

    open spec fn mul_req(self, s: i32) -> bool {
        fits(self.x * s) && fits(self.y * s) && fits(self.z * s) && fits(self.w * s)
    }

    open spec fn mul_spec(self, s: i32) -> Quaternion<i32> {
        Quaternion { x: (self.x * s) as i32, y: (self.y * s) as i32, z: (self.z * s) as i32, w: (self.w * s) as i32 }
    }
}

impl core::ops::Mul for Quaternion<i32> {
    type Output = Quaternion<i32>;

    fn mul(self, rhs: Quaternion<i32>) -> (r: Quaternion<i32>) {
        Quaternion::hamilton(&self, &rhs)
    }
}

impl vstd::std_specs::ops::MulSpecImpl for Quaternion<i32> {
    open spec fn obeys_mul_spec() -> bool {
        true
    }

    open spec fn mul_req(self, rhs: Quaternion<i32>) -> bool {
        hamilton_fits(self, rhs)
    }

    open spec fn mul_spec(self, rhs: Quaternion<i32>) -> Quaternion<i32> {
        Quaternion {
            x: (self.w * rhs.x + self.x * rhs.w + self.y * rhs.z - self.z * rhs.y) as i32,
            y: (self.w * rhs.y - self.x * rhs.z + self.y * rhs.w + self.z * rhs.x) as i32,
            z: (self.w * rhs.z + self.x * rhs.y - self.y * rhs.x + self.z * rhs.w) as i32,
            w: (self.w * rhs.w - self.x * rhs.x - self.y * rhs.y - self.z * rhs.z) as i32,
        }
    }
}

} // verus!
