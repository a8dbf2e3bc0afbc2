//! Generic row-major matrices: [`Matrix3`] and [`Matrix4`].
//!
//! Conventions: row-major storage `m[row][col]`; row-vector × matrix
//! transforms `v' = v · M`, so `A·B` applies `A` first, then `B`;
//! `Matrix4` translation lives in `m[3][0..2]`.
use vstd::prelude::*;

use super::vector::{fits, sum3_fits, sum4_fits, Vector3, Vector4};

verus! {

/// A 3×3 row-major matrix.
#[derive(Debug, Clone, Copy, PartialEq, Eq)]
pub struct Matrix3<T> {
    pub m: [[T; 3]; 3],
}

/// A 4×4 row-major matrix. Translation is stored in `m[3][0..2]`.
#[derive(Debug, Clone, Copy, PartialEq, Eq)]
pub struct Matrix4<T> {
    pub m: [[T; 4]; 4],
}

/// Entry `(r, c)` of the product `a · b`.
pub open spec fn entry3(a: [[i32; 3]; 3], b: [[i32; 3]; 3], r: int, c: int) -> int {
    a[r][0] * b[0][c] + a[r][1] * b[1][c] + a[r][2] * b[2][c]
}

/// Entry `(r, c)` of the product `a · b`.
pub open spec fn entry4(a: [[i32; 4]; 4], b: [[i32; 4]; 4], r: int, c: int) -> int {
    a[r][0] * b[0][c] + a[r][1] * b[1][c] + a[r][2] * b[2][c] + a[r][3] * b[3][c]
}

/// Entry `(r, c)` of `a · b` and every step of it fit an `i32`.
pub open spec fn entry3_fits(a: [[i32; 3]; 3], b: [[i32; 3]; 3], r: int, c: int) -> bool {
    sum3_fits(a[r][0] * b[0][c], a[r][1] * b[1][c], a[r][2] * b[2][c])
}

/// Entry `(r, c)` of `a · b` and every step of it fit an `i32`.
pub open spec fn entry4_fits(a: [[i32; 4]; 4], b: [[i32; 4]; 4], r: int, c: int) -> bool {
    sum4_fits(a[r][0] * b[0][c], a[r][1] * b[1][c], a[r][2] * b[2][c], a[r][3] * b[3][c])
}
/// Every entry of `a · b` fits.
pub open spec fn mul3_fits(a: [[i32; 3]; 3], b: [[i32; 3]; 3]) -> bool {
    &&& entry3_fits(a, b, 0, 0)
    &&& entry3_fits(a, b, 0, 1)
    &&& entry3_fits(a, b, 0, 2)
    &&& entry3_fits(a, b, 1, 0)
    &&& entry3_fits(a, b, 1, 1)
    &&& entry3_fits(a, b, 1, 2)
    &&& entry3_fits(a, b, 2, 0)
    &&& entry3_fits(a, b, 2, 1)
    &&& entry3_fits(a, b, 2, 2)
}
/// `p` is the product `a · b`.
pub open spec fn is_product3(p: [[i32; 3]; 3], a: [[i32; 3]; 3], b: [[i32; 3]; 3]) -> bool {
    &&& p[0][0] == entry3(a, b, 0, 0)
    &&& p[0][1] == entry3(a, b, 0, 1)
    &&& p[0][2] == entry3(a, b, 0, 2)
    &&& p[1][0] == entry3(a, b, 1, 0)
    &&& p[1][1] == entry3(a, b, 1, 1)
    &&& p[1][2] == entry3(a, b, 1, 2)
    &&& p[2][0] == entry3(a, b, 2, 0)
    &&& p[2][1] == entry3(a, b, 2, 1)
    &&& p[2][2] == entry3(a, b, 2, 2)
}
/// Every entry of `a · b` fits.
pub open spec fn mul4_fits(a: [[i32; 4]; 4], b: [[i32; 4]; 4]) -> bool {
    &&& entry4_fits(a, b, 0, 0)
    &&& entry4_fits(a, b, 0, 1)
    &&& entry4_fits(a, b, 0, 2)
    &&& entry4_fits(a, b, 0, 3)
    &&& entry4_fits(a, b, 1, 0)
    &&& entry4_fits(a, b, 1, 1)
    &&& entry4_fits(a, b, 1, 2)
    &&& entry4_fits(a, b, 1, 3)
    &&& entry4_fits(a, b, 2, 0)
    &&& entry4_fits(a, b, 2, 1)
    &&& entry4_fits(a, b, 2, 2)
    &&& entry4_fits(a, b, 2, 3)
    &&& entry4_fits(a, b, 3, 0)
    &&& entry4_fits(a, b, 3, 1)
    &&& entry4_fits(a, b, 3, 2)
    &&& entry4_fits(a, b, 3, 3)
}
/// `p` is the product `a · b`.
pub open spec fn is_product4(p: [[i32; 4]; 4], a: [[i32; 4]; 4], b: [[i32; 4]; 4]) -> bool {
    &&& p[0][0] == entry4(a, b, 0, 0)
    &&& p[0][1] == entry4(a, b, 0, 1)
    &&& p[0][2] == entry4(a, b, 0, 2)
    &&& p[0][3] == entry4(a, b, 0, 3)
    &&& p[1][0] == entry4(a, b, 1, 0)
    &&& p[1][1] == entry4(a, b, 1, 1)
    &&& p[1][2] == entry4(a, b, 1, 2)
    &&& p[1][3] == entry4(a, b, 1, 3)
    &&& p[2][0] == entry4(a, b, 2, 0)
    &&& p[2][1] == entry4(a, b, 2, 1)
    &&& p[2][2] == entry4(a, b, 2, 2)
    &&& p[2][3] == entry4(a, b, 2, 3)
    &&& p[3][0] == entry4(a, b, 3, 0)
    &&& p[3][1] == entry4(a, b, 3, 1)
    &&& p[3][2] == entry4(a, b, 3, 2)
    &&& p[3][3] == entry4(a, b, 3, 3)
}
/// `t` is the transpose of `m`.
pub open spec fn is_transpose3(t: [[i32; 3]; 3], m: [[i32; 3]; 3]) -> bool {
    &&& t[0][0] == m[0][0]
    &&& t[0][1] == m[1][0]
    &&& t[0][2] == m[2][0]
    &&& t[1][0] == m[0][1]
    &&& t[1][1] == m[1][1]
    &&& t[1][2] == m[2][1]
    &&& t[2][0] == m[0][2]
    &&& t[2][1] == m[1][2]
    &&& t[2][2] == m[2][2]
}
/// `t` is the transpose of `m`.
pub open spec fn is_transpose4(t: [[i32; 4]; 4], m: [[i32; 4]; 4]) -> bool {
    &&& t[0][0] == m[0][0]
    &&& t[0][1] == m[1][0]
    &&& t[0][2] == m[2][0]
    &&& t[0][3] == m[3][0]
    &&& t[1][0] == m[0][1]
    &&& t[1][1] == m[1][1]
    &&& t[1][2] == m[2][1]
    &&& t[1][3] == m[3][1]
    &&& t[2][0] == m[0][2]
    &&& t[2][1] == m[1][2]
    &&& t[2][2] == m[2][2]
    &&& t[2][3] == m[3][2]
    &&& t[3][0] == m[0][3]
    &&& t[3][1] == m[1][3]
    &&& t[3][2] == m[2][3]
    &&& t[3][3] == m[3][3]
}
/// The 3×3 determinant by cofactor expansion along the first row.
pub open spec fn det3(m: [[i32; 3]; 3]) -> int {
    m[0][0] * (m[1][1] * m[2][2] - m[1][2] * m[2][1])
        - m[0][1] * (m[1][0] * m[2][2] - m[1][2] * m[2][0])
        + m[0][2] * (m[1][0] * m[2][1] - m[1][1] * m[2][0])
}

/// Every step of the 3×3 determinant fits an `i32`.
pub open spec fn det3_fits(m: [[i32; 3]; 3]) -> bool {
    &&& fits(m[1][1] * m[2][2]) && fits(m[1][2] * m[2][1]) && fits(m[1][1] * m[2][2] - m[1][2] * m[2][1])
    &&& fits(m[1][0] * m[2][2]) && fits(m[1][2] * m[2][0]) && fits(m[1][0] * m[2][2] - m[1][2] * m[2][0])
    &&& fits(m[1][0] * m[2][1]) && fits(m[1][1] * m[2][0]) && fits(m[1][0] * m[2][1] - m[1][1] * m[2][0])
    &&& fits(m[0][0] * (m[1][1] * m[2][2] - m[1][2] * m[2][1]))
    &&& fits(m[0][1] * (m[1][0] * m[2][2] - m[1][2] * m[2][0]))
    &&& fits(m[0][2] * (m[1][0] * m[2][1] - m[1][1] * m[2][0]))
    &&& fits(m[0][0] * (m[1][1] * m[2][2] - m[1][2] * m[2][1]) - m[0][1] * (m[1][0] * m[2][2] - m[1][2] * m[2][0]))
    &&& fits(det3(m))
}

/// The 2×2 minors of rows 0/1 (`s`) and rows 2/3 (`c`) of a 4×4 matrix.
pub open spec fn minors4(m: [[i32; 4]; 4]) -> (Seq<int>, Seq<int>) {
    (seq![
        m[0][0] * m[1][1] - m[1][0] * m[0][1],
        m[0][0] * m[1][2] - m[1][0] * m[0][2],
        m[0][0] * m[1][3] - m[1][0] * m[0][3],
        m[0][1] * m[1][2] - m[1][1] * m[0][2],
        m[0][1] * m[1][3] - m[1][1] * m[0][3],
        m[0][2] * m[1][3] - m[1][2] * m[0][3],
    ], seq![
        m[2][0] * m[3][1] - m[3][0] * m[2][1],
        m[2][0] * m[3][2] - m[3][0] * m[2][2],
        m[2][0] * m[3][3] - m[3][0] * m[2][3],
        m[2][1] * m[3][2] - m[3][1] * m[2][2],
        m[2][1] * m[3][3] - m[3][1] * m[2][3],
        m[2][2] * m[3][3] - m[3][2] * m[2][3],
    ])
}

/// The 4×4 determinant by the Laplace expansion over complementary minors.
pub open spec fn det4(m: [[i32; 4]; 4]) -> int {
    let (s, c) = minors4(m);
    s[0] * c[5] - s[1] * c[4] + s[2] * c[3] + s[3] * c[2] - s[4] * c[1] + s[5] * c[0]
}

/// `a·b - c·d` and its two products fit an `i32`.
pub open spec fn diff_fits(a: int, b: int, c: int, d: int) -> bool {
    fits(a * b) && fits(c * d) && fits(a * b - c * d)
}

/// Every step of the 4×4 determinant fits an `i32`.
pub open spec fn det4_fits(m: [[i32; 4]; 4]) -> bool {
    let (s, c) = minors4(m);
    &&& diff_fits(m[0][0] as int, m[1][1] as int, m[1][0] as int, m[0][1] as int)
    &&& diff_fits(m[0][0] as int, m[1][2] as int, m[1][0] as int, m[0][2] as int)
    &&& diff_fits(m[0][0] as int, m[1][3] as int, m[1][0] as int, m[0][3] as int)
    &&& diff_fits(m[0][1] as int, m[1][2] as int, m[1][1] as int, m[0][2] as int)
    &&& diff_fits(m[0][1] as int, m[1][3] as int, m[1][1] as int, m[0][3] as int)
    &&& diff_fits(m[0][2] as int, m[1][3] as int, m[1][2] as int, m[0][3] as int)
    &&& diff_fits(m[2][0] as int, m[3][1] as int, m[3][0] as int, m[2][1] as int)
    &&& diff_fits(m[2][0] as int, m[3][2] as int, m[3][0] as int, m[2][2] as int)
    &&& diff_fits(m[2][0] as int, m[3][3] as int, m[3][0] as int, m[2][3] as int)
    &&& diff_fits(m[2][1] as int, m[3][2] as int, m[3][1] as int, m[2][2] as int)
    &&& diff_fits(m[2][1] as int, m[3][3] as int, m[3][1] as int, m[2][3] as int)
    &&& diff_fits(m[2][2] as int, m[3][3] as int, m[3][2] as int, m[2][3] as int)
    &&& fits(s[0] * c[5]) && fits(s[1] * c[4]) && fits(s[2] * c[3])
    &&& fits(s[3] * c[2]) && fits(s[4] * c[1]) && fits(s[5] * c[0])
    &&& fits(s[0] * c[5] - s[1] * c[4])
    &&& fits(s[0] * c[5] - s[1] * c[4] + s[2] * c[3])
    &&& fits(s[0] * c[5] - s[1] * c[4] + s[2] * c[3] + s[3] * c[2])
    &&& fits(s[0] * c[5] - s[1] * c[4] + s[2] * c[3] + s[3] * c[2] - s[4] * c[1])
    &&& fits(det4(m))
}

/// `a0·b0 + a1·b1 + a2·b2`.
fn dot3(a0: i32, a1: i32, a2: i32, b0: i32, b1: i32, b2: i32) -> (r: i32)
    requires
        sum3_fits(a0 * b0, a1 * b1, a2 * b2),
    ensures
        r == a0 * b0 + a1 * b1 + a2 * b2,
{
    a0 * b0 + a1 * b1 + a2 * b2
}

/// `a0·b0 + a1·b1 + a2·b2 + a3·b3`.
fn dot4(a0: i32, a1: i32, a2: i32, a3: i32, b0: i32, b1: i32, b2: i32, b3: i32) -> (r: i32)
    requires
        sum4_fits(a0 * b0, a1 * b1, a2 * b2, a3 * b3),
    ensures
        r == a0 * b0 + a1 * b1 + a2 * b2 + a3 * b3,
{
    a0 * b0 + a1 * b1 + a2 * b2 + a3 * b3
}

/// `a·b - c·d`.
fn diff(a: i32, b: i32, c: i32, d: i32) -> (r: i32)
    requires
        diff_fits(a as int, b as int, c as int, d as int),
    ensures
        r == a * b - c * d,
{
    a * b - c * d
}

/// `1 / d` as integer division truncates it, for `d != 0`: `±1` for a
/// unit `d`, else 0.
pub open spec fn unit_recip(d: int) -> int {
    if d == 1 {
        1
    } else if d == -1 {
        -1
    } else {
        0
    }
}

/// `1 / d`, truncated.
fn recip(d: i32) -> (r: i32)
    requires
        d != 0,
    ensures
        r == unit_recip(d as int),
{
    if d == 1 {
        1
    } else if d == -1 {
        -1
    } else {
        0
    }
}

/// `v` scaled by a unit reciprocal (`-1`, 0 or 1).
fn scale_unit(v: i32, u: i32) -> (r: i32)
    requires
        -1 <= u <= 1,
        fits(-v),
    ensures
        r == v * u,
{
    if u == 1 {
        assert(v * u == v) by (nonlinear_arith)
            requires
                u == 1,
        ;
        v
    } else if u == -1 {
        assert(v * u == -v) by (nonlinear_arith)
            requires
                u == -1,
        ;
        -v
    } else {
        assert(v * u == 0) by (nonlinear_arith)
            requires
                u == 0,
        ;
        0
    }
}

/// The adjugate of a 3×3 matrix, entry `(r, c)`.
pub open spec fn adj3(m: [[i32; 3]; 3], r: int, c: int) -> int {
    if r == 0 && c == 0 {
        m[1][1] * m[2][2] - m[1][2] * m[2][1]
    } else if r == 0 && c == 1 {
        m[0][2] * m[2][1] - m[0][1] * m[2][2]
    } else if r == 0 {
        m[0][1] * m[1][2] - m[0][2] * m[1][1]
    } else if r == 1 && c == 0 {
        m[1][2] * m[2][0] - m[1][0] * m[2][2]
    } else if r == 1 && c == 1 {
        m[0][0] * m[2][2] - m[0][2] * m[2][0]
    } else if r == 1 {
        m[0][2] * m[1][0] - m[0][0] * m[1][2]
    } else if c == 0 {
        m[1][0] * m[2][1] - m[1][1] * m[2][0]
    } else if c == 1 {
        m[0][1] * m[2][0] - m[0][0] * m[2][1]
    } else {
        m[0][0] * m[1][1] - m[0][1] * m[1][0]
    }
}

/// Every step of the 3×3 inverse fits an `i32`.
pub open spec fn inverse3_fits(m: [[i32; 3]; 3]) -> bool {
    &&& det3_fits(m)
    &&& diff_fits(m[1][1] as int, m[2][2] as int, m[1][2] as int, m[2][1] as int)
    &&& diff_fits(m[0][2] as int, m[2][1] as int, m[0][1] as int, m[2][2] as int)
    &&& diff_fits(m[0][1] as int, m[1][2] as int, m[0][2] as int, m[1][1] as int)
    &&& diff_fits(m[1][2] as int, m[2][0] as int, m[1][0] as int, m[2][2] as int)
    &&& diff_fits(m[0][0] as int, m[2][2] as int, m[0][2] as int, m[2][0] as int)
    &&& diff_fits(m[0][2] as int, m[1][0] as int, m[0][0] as int, m[1][2] as int)
    &&& diff_fits(m[1][0] as int, m[2][1] as int, m[1][1] as int, m[2][0] as int)
    &&& diff_fits(m[0][1] as int, m[2][0] as int, m[0][0] as int, m[2][1] as int)
    &&& diff_fits(m[0][0] as int, m[1][1] as int, m[0][1] as int, m[1][0] as int)
    &&& forall|r: int, c: int| 0 <= r < 3 && 0 <= c < 3 ==> fits(-#[trigger] adj3(m, r, c))
}

/// `a·x - b·y + c·z`.
pub open spec fn alt3(a: int, x: int, b: int, y: int, c: int, z: int) -> int {
    a * x - b * y + c * z
}

/// Every step of `a·x - b·y + c·z`, and its negation, fit an `i32`.
pub open spec fn alt3_fits(a: int, x: int, b: int, y: int, c: int, z: int) -> bool {
    &&& fits(a * x) && fits(b * y) && fits(c * z)
    &&& fits(a * x - b * y) && fits(alt3(a, x, b, y, c, z)) && fits(-alt3(a, x, b, y, c, z))
}

/// `a·x - b·y + c·z`.
fn alt(a: i32, x: i32, b: i32, y: i32, c: i32, z: i32) -> (r: i32)
    requires
        alt3_fits(a as int, x as int, b as int, y as int, c as int, z as int),
    ensures
        r == alt3(a as int, x as int, b as int, y as int, c as int, z as int),
{
    a * x - b * y + c * z
}

/// The adjugate of a 4×4 matrix, entry `(r, c)`, over the complementary
/// 2×2 minors `s` (rows 0/1) and `k` (rows 2/3).
pub open spec fn adj4(m: [[i32; 4]; 4], r: int, c: int) -> int {
    let (s, k) = minors4(m);
    if r == 0 && c == 0 {
        alt3(m[1][1] as int, k[5], m[1][2] as int, k[4], m[1][3] as int, k[3])
    } else if r == 0 && c == 1 {
        -alt3(m[0][1] as int, k[5], m[0][2] as int, k[4], m[0][3] as int, k[3])
    } else if r == 0 && c == 2 {
        alt3(m[3][1] as int, s[5], m[3][2] as int, s[4], m[3][3] as int, s[3])
    } else if r == 0 {
        -alt3(m[2][1] as int, s[5], m[2][2] as int, s[4], m[2][3] as int, s[3])
    } else if r == 1 && c == 0 {
        -alt3(m[1][0] as int, k[5], m[1][2] as int, k[2], m[1][3] as int, k[1])
    } else if r == 1 && c == 1 {
        alt3(m[0][0] as int, k[5], m[0][2] as int, k[2], m[0][3] as int, k[1])
    } else if r == 1 && c == 2 {
        -alt3(m[3][0] as int, s[5], m[3][2] as int, s[2], m[3][3] as int, s[1])
    } else if r == 1 {
        alt3(m[2][0] as int, s[5], m[2][2] as int, s[2], m[2][3] as int, s[1])
    } else if r == 2 && c == 0 {
        alt3(m[1][0] as int, k[4], m[1][1] as int, k[2], m[1][3] as int, k[0])
    } else if r == 2 && c == 1 {
        -alt3(m[0][0] as int, k[4], m[0][1] as int, k[2], m[0][3] as int, k[0])
    } else if r == 2 && c == 2 {
        alt3(m[3][0] as int, s[4], m[3][1] as int, s[2], m[3][3] as int, s[0])
    } else if r == 2 {
        -alt3(m[2][0] as int, s[4], m[2][1] as int, s[2], m[2][3] as int, s[0])
    } else if c == 0 {
        -alt3(m[1][0] as int, k[3], m[1][1] as int, k[1], m[1][2] as int, k[0])
    } else if c == 1 {
        alt3(m[0][0] as int, k[3], m[0][1] as int, k[1], m[0][2] as int, k[0])
    } else if c == 2 {
        -alt3(m[3][0] as int, s[3], m[3][1] as int, s[1], m[3][2] as int, s[0])
    } else {
        alt3(m[2][0] as int, s[3], m[2][1] as int, s[1], m[2][2] as int, s[0])
    }
}

/// Every step of the 4×4 inverse fits an `i32`.
pub open spec fn inverse4_fits(m: [[i32; 4]; 4]) -> bool {
    let (s, k) = minors4(m);
    &&& det4_fits(m)
    &&& alt3_fits(m[1][1] as int, k[5], m[1][2] as int, k[4], m[1][3] as int, k[3])
    &&& alt3_fits(m[0][1] as int, k[5], m[0][2] as int, k[4], m[0][3] as int, k[3])
    &&& alt3_fits(m[3][1] as int, s[5], m[3][2] as int, s[4], m[3][3] as int, s[3])
    &&& alt3_fits(m[2][1] as int, s[5], m[2][2] as int, s[4], m[2][3] as int, s[3])
    &&& alt3_fits(m[1][0] as int, k[5], m[1][2] as int, k[2], m[1][3] as int, k[1])
    &&& alt3_fits(m[0][0] as int, k[5], m[0][2] as int, k[2], m[0][3] as int, k[1])
    &&& alt3_fits(m[3][0] as int, s[5], m[3][2] as int, s[2], m[3][3] as int, s[1])
    &&& alt3_fits(m[2][0] as int, s[5], m[2][2] as int, s[2], m[2][3] as int, s[1])
    &&& alt3_fits(m[1][0] as int, k[4], m[1][1] as int, k[2], m[1][3] as int, k[0])
    &&& alt3_fits(m[0][0] as int, k[4], m[0][1] as int, k[2], m[0][3] as int, k[0])
    &&& alt3_fits(m[3][0] as int, s[4], m[3][1] as int, s[2], m[3][3] as int, s[0])
    &&& alt3_fits(m[2][0] as int, s[4], m[2][1] as int, s[2], m[2][3] as int, s[0])
    &&& alt3_fits(m[1][0] as int, k[3], m[1][1] as int, k[1], m[1][2] as int, k[0])
    &&& alt3_fits(m[0][0] as int, k[3], m[0][1] as int, k[1], m[0][2] as int, k[0])
    &&& alt3_fits(m[3][0] as int, s[3], m[3][1] as int, s[1], m[3][2] as int, s[0])
    &&& alt3_fits(m[2][0] as int, s[3], m[2][1] as int, s[1], m[2][2] as int, s[0])
}

impl Matrix3<i32> {
    /// Constructs a matrix from its 9 row-major entries.
    pub fn new(m: [[i32; 3]; 3]) -> (r: Self)
        ensures
            r.m == m,
    {
        Matrix3 { m }
    }

    /// Matrix product `self · rhs` (row-major, apply `self` then `rhs`).
    pub fn mul(&self, rhs: &Self) -> (r: Self)
        requires
            mul3_fits(self.m, rhs.m),
        ensures
            is_product3(r.m, self.m, rhs.m),
    {
        let a = &self.m;
        let b = &rhs.m;
        Matrix3 { m: [
            [dot3(a[0][0], a[0][1], a[0][2], b[0][0], b[1][0], b[2][0]), dot3(a[0][0], a[0][1], a[0][2], b[0][1], b[1][1], b[2][1]), dot3(a[0][0], a[0][1], a[0][2], b[0][2], b[1][2], b[2][2])],
            [dot3(a[1][0], a[1][1], a[1][2], b[0][0], b[1][0], b[2][0]), dot3(a[1][0], a[1][1], a[1][2], b[0][1], b[1][1], b[2][1]), dot3(a[1][0], a[1][1], a[1][2], b[0][2], b[1][2], b[2][2])],
            [dot3(a[2][0], a[2][1], a[2][2], b[0][0], b[1][0], b[2][0]), dot3(a[2][0], a[2][1], a[2][2], b[0][1], b[1][1], b[2][1]), dot3(a[2][0], a[2][1], a[2][2], b[0][2], b[1][2], b[2][2])],
        ] }
    }

    /// Transpose (keeps row-major semantics).
    pub fn transpose(&self) -> (r: Self)
        ensures
            is_transpose3(r.m, self.m),
    {
        let m = &self.m;
        Matrix3 { m: [[m[0][0], m[1][0], m[2][0]], [m[0][1], m[1][1], m[2][1]], [m[0][2], m[1][2], m[2][2]]] }
    }

    /// Determinant.
    pub fn determinant(&self) -> (d: i32)
        requires
            det3_fits(self.m),
        ensures
            d == det3(self.m),
    {
        let m = &self.m;
        m[0][0] * (m[1][1] * m[2][2] - m[1][2] * m[2][1]) - m[0][1] * (m[1][0] * m[2][2] - m[1][2] * m[2][0])
            + m[0][2] * (m[1][0] * m[2][1] - m[1][1] * m[2][0])
    }

    /// Transforms a vector (`v · M`).
    pub fn mul_vec3(&self, v: Vector3<i32>) -> (r: Vector3<i32>)
        requires
            sum3_fits(v.x * self.m[0][0], v.y * self.m[1][0], v.z * self.m[2][0]),
            sum3_fits(v.x * self.m[0][1], v.y * self.m[1][1], v.z * self.m[2][1]),
            sum3_fits(v.x * self.m[0][2], v.y * self.m[1][2], v.z * self.m[2][2]),
        ensures
            r.x == v.x * self.m[0][0] + v.y * self.m[1][0] + v.z * self.m[2][0],
            r.y == v.x * self.m[0][1] + v.y * self.m[1][1] + v.z * self.m[2][1],
            r.z == v.x * self.m[0][2] + v.y * self.m[1][2] + v.z * self.m[2][2],
    {
        let m = &self.m;
        Vector3::new(
            dot3(v.x, v.y, v.z, m[0][0], m[1][0], m[2][0]),
            dot3(v.x, v.y, v.z, m[0][1], m[1][1], m[2][1]),
            dot3(v.x, v.y, v.z, m[0][2], m[1][2], m[2][2]),
        )
    }

    /// The 3×3 block embedded in a 4×4 identity.
    pub fn to_mat4(&self) -> (r: Matrix4<i32>)
        ensures
            forall|i: int, j: int| 0 <= i < 3 && 0 <= j < 3 ==> r.m[i][j] == self.m[i][j],
            r.m[0][3] == 0 && r.m[1][3] == 0 && r.m[2][3] == 0,
            r.m[3][0] == 0 && r.m[3][1] == 0 && r.m[3][2] == 0 && r.m[3][3] == 1,
    {
        let m = &self.m;
        let r = Matrix4 { m: [
            [m[0][0], m[0][1], m[0][2], 0],
            [m[1][0], m[1][1], m[1][2], 0],
            [m[2][0], m[2][1], m[2][2], 0],
            [0, 0, 0, 1],
        ] };
        assert forall|i: int, j: int| 0 <= i < 3 && 0 <= j < 3 implies r.m[i][j] == self.m[i][j] by {
            if i == 0 { if j == 0 {} else if j == 1 {} else {} }
            else if i == 1 { if j == 0 {} else if j == 1 {} else {} }
            else { if j == 0 {} else if j == 1 {} else {} }
        }
        r
    }

    /// The upper-left 3×3 block of a 4×4 matrix.
    pub fn from_mat4(m: &Matrix4<i32>) -> (r: Self)
        ensures
            forall|i: int, j: int| 0 <= i < 3 && 0 <= j < 3 ==> r.m[i][j] == m.m[i][j],
    {
        let a = &m.m;
        let r = Matrix3 { m: [[a[0][0], a[0][1], a[0][2]], [a[1][0], a[1][1], a[1][2]], [a[2][0], a[2][1], a[2][2]]] };
        assert forall|i: int, j: int| 0 <= i < 3 && 0 <= j < 3 implies r.m[i][j] == m.m[i][j] by {
            if i == 0 { if j == 0 {} else if j == 1 {} else {} }
            else if i == 1 { if j == 0 {} else if j == 1 {} else {} }
            else { if j == 0 {} else if j == 1 {} else {} }
        }
        r
    }
}

impl Matrix3<i32> {
    /// Inverts the matrix, returning `None` when it is singular. Entries
    /// are the adjugate scaled by `1 / det` in integer division, so a
    /// non-unit determinant gives the zero matrix.
    pub fn inverse(&self) -> (r: Option<Self>)
        requires
            inverse3_fits(self.m),
        ensures
            r is None <==> det3(self.m) == 0,
            r matches Some(inv) ==> forall|i: int, j: int| 0 <= i < 3 && 0 <= j < 3
                ==> #[trigger] inv.m[i][j] == adj3(self.m, i, j) * unit_recip(det3(self.m)),
    {
        let d = self.determinant();
        if d == 0 {
            return None;
        }
        let u = recip(d);
        let m = &self.m;
        proof {
            assert(fits(-adj3(self.m, 0, 0)) && fits(-adj3(self.m, 0, 1)) && fits(-adj3(self.m, 0, 2)));
            assert(fits(-adj3(self.m, 1, 0)) && fits(-adj3(self.m, 1, 1)) && fits(-adj3(self.m, 1, 2)));
            assert(fits(-adj3(self.m, 2, 0)) && fits(-adj3(self.m, 2, 1)) && fits(-adj3(self.m, 2, 2)));
        }
        let out = Matrix3 { m: [
            [scale_unit(diff(m[1][1], m[2][2], m[1][2], m[2][1]), u), scale_unit(diff(m[0][2], m[2][1], m[0][1], m[2][2]), u), scale_unit(diff(m[0][1], m[1][2], m[0][2], m[1][1]), u)],
            [scale_unit(diff(m[1][2], m[2][0], m[1][0], m[2][2]), u), scale_unit(diff(m[0][0], m[2][2], m[0][2], m[2][0]), u), scale_unit(diff(m[0][2], m[1][0], m[0][0], m[1][2]), u)],
            [scale_unit(diff(m[1][0], m[2][1], m[1][1], m[2][0]), u), scale_unit(diff(m[0][1], m[2][0], m[0][0], m[2][1]), u), scale_unit(diff(m[0][0], m[1][1], m[0][1], m[1][0]), u)],
        ] };
        assert forall|i: int, j: int| 0 <= i < 3 && 0 <= j < 3 implies #[trigger] out.m[i][j] == adj3(self.m, i, j) * unit_recip(det3(self.m)) by {
            if i == 0 { if j == 0 {} else if j == 1 {} else {} }
            else if i == 1 { if j == 0 {} else if j == 1 {} else {} }
            else { if j == 0 {} else if j == 1 {} else {} }
        }
        Some(out)
    }
}

impl Matrix4<i32> {
    /// Constructs a matrix from its 16 row-major entries.
    pub fn new(m: [[i32; 4]; 4]) -> (r: Self)
        ensures
            r.m == m,
    {
        Matrix4 { m }
    }

    /// Matrix product `self · rhs` (row-major, apply `self` then `rhs`).
    pub fn mul(&self, rhs: &Self) -> (r: Self)
        requires
            mul4_fits(self.m, rhs.m),
        ensures
            is_product4(r.m, self.m, rhs.m),
    {
        let a = &self.m;
        let b = &rhs.m;
        Matrix4 { m: [
            [dot4(a[0][0], a[0][1], a[0][2], a[0][3], b[0][0], b[1][0], b[2][0], b[3][0]),
             dot4(a[0][0], a[0][1], a[0][2], a[0][3], b[0][1], b[1][1], b[2][1], b[3][1]),
             dot4(a[0][0], a[0][1], a[0][2], a[0][3], b[0][2], b[1][2], b[2][2], b[3][2]),
             dot4(a[0][0], a[0][1], a[0][2], a[0][3], b[0][3], b[1][3], b[2][3], b[3][3])],
            [dot4(a[1][0], a[1][1], a[1][2], a[1][3], b[0][0], b[1][0], b[2][0], b[3][0]),
             dot4(a[1][0], a[1][1], a[1][2], a[1][3], b[0][1], b[1][1], b[2][1], b[3][1]),
             dot4(a[1][0], a[1][1], a[1][2], a[1][3], b[0][2], b[1][2], b[2][2], b[3][2]),
             dot4(a[1][0], a[1][1], a[1][2], a[1][3], b[0][3], b[1][3], b[2][3], b[3][3])],
            [dot4(a[2][0], a[2][1], a[2][2], a[2][3], b[0][0], b[1][0], b[2][0], b[3][0]),
             dot4(a[2][0], a[2][1], a[2][2], a[2][3], b[0][1], b[1][1], b[2][1], b[3][1]),
             dot4(a[2][0], a[2][1], a[2][2], a[2][3], b[0][2], b[1][2], b[2][2], b[3][2]),
             dot4(a[2][0], a[2][1], a[2][2], a[2][3], b[0][3], b[1][3], b[2][3], b[3][3])],
            [dot4(a[3][0], a[3][1], a[3][2], a[3][3], b[0][0], b[1][0], b[2][0], b[3][0]),
             dot4(a[3][0], a[3][1], a[3][2], a[3][3], b[0][1], b[1][1], b[2][1], b[3][1]),
             dot4(a[3][0], a[3][1], a[3][2], a[3][3], b[0][2], b[1][2], b[2][2], b[3][2]),
             dot4(a[3][0], a[3][1], a[3][2], a[3][3], b[0][3], b[1][3], b[2][3], b[3][3])],
        ] }
    }

    /// Transpose (keeps row-major semantics).
    pub fn transpose(&self) -> (r: Self)
        ensures
            is_transpose4(r.m, self.m),
    {
        let m = &self.m;
        Matrix4 { m: [[m[0][0], m[1][0], m[2][0], m[3][0]], [m[0][1], m[1][1], m[2][1], m[3][1]], [m[0][2], m[1][2], m[2][2], m[3][2]], [m[0][3], m[1][3], m[2][3], m[3][3]]] }
    }

    /// Determinant.
    pub fn determinant(&self) -> (d: i32)
        requires
            det4_fits(self.m),
        ensures
            d == det4(self.m),
    {
        let m = &self.m;
        let s0 = diff(m[0][0], m[1][1], m[1][0], m[0][1]);
        let s1 = diff(m[0][0], m[1][2], m[1][0], m[0][2]);
        let s2 = diff(m[0][0], m[1][3], m[1][0], m[0][3]);
        let s3 = diff(m[0][1], m[1][2], m[1][1], m[0][2]);
        let s4 = diff(m[0][1], m[1][3], m[1][1], m[0][3]);
        let s5 = diff(m[0][2], m[1][3], m[1][2], m[0][3]);
        let c5 = diff(m[2][2], m[3][3], m[3][2], m[2][3]);
        let c4 = diff(m[2][1], m[3][3], m[3][1], m[2][3]);
        let c3 = diff(m[2][1], m[3][2], m[3][1], m[2][2]);
        let c2 = diff(m[2][0], m[3][3], m[3][0], m[2][3]);
        let c1 = diff(m[2][0], m[3][2], m[3][0], m[2][2]);
        let c0 = diff(m[2][0], m[3][1], m[3][0], m[2][1]);
        s0 * c5 - s1 * c4 + s2 * c3 + s3 * c2 - s4 * c1 + s5 * c0
    }

    /// Inverts the matrix by the adjugate over complementary minors,
    /// returning `None` when it is singular. Entries are the adjugate scaled
    /// by `1 / det` in integer division, so a non-unit determinant gives the
    /// zero matrix.
    pub fn inverse(&self) -> (r: Option<Self>)
        requires
            inverse4_fits(self.m),
        ensures
            r is None <==> det4(self.m) == 0,
            r matches Some(inv) ==> forall|i: int, j: int| 0 <= i < 4 && 0 <= j < 4
                ==> #[trigger] inv.m[i][j] == adj4(self.m, i, j) * unit_recip(det4(self.m)),
    {
        let d = self.determinant();
        if d == 0 {
            return None;
        }
        let u = recip(d);
        let m = &self.m;
        let s0 = diff(m[0][0], m[1][1], m[1][0], m[0][1]);
        let s1 = diff(m[0][0], m[1][2], m[1][0], m[0][2]);
        let s2 = diff(m[0][0], m[1][3], m[1][0], m[0][3]);
        let s3 = diff(m[0][1], m[1][2], m[1][1], m[0][2]);
        let s4 = diff(m[0][1], m[1][3], m[1][1], m[0][3]);
        let s5 = diff(m[0][2], m[1][3], m[1][2], m[0][3]);
        let c5 = diff(m[2][2], m[3][3], m[3][2], m[2][3]);
        let c4 = diff(m[2][1], m[3][3], m[3][1], m[2][3]);
        let c3 = diff(m[2][1], m[3][2], m[3][1], m[2][2]);
        let c2 = diff(m[2][0], m[3][3], m[3][0], m[2][3]);
        let c1 = diff(m[2][0], m[3][2], m[3][0], m[2][2]);
        let c0 = diff(m[2][0], m[3][1], m[3][0], m[2][1]);
        let e00 = alt(m[1][1], c5, m[1][2], c4, m[1][3], c3);
        let e01 = alt(m[0][1], c5, m[0][2], c4, m[0][3], c3);
        let e02 = alt(m[3][1], s5, m[3][2], s4, m[3][3], s3);
        let e03 = alt(m[2][1], s5, m[2][2], s4, m[2][3], s3);
        let e10 = alt(m[1][0], c5, m[1][2], c2, m[1][3], c1);
        let e11 = alt(m[0][0], c5, m[0][2], c2, m[0][3], c1);
        let e12 = alt(m[3][0], s5, m[3][2], s2, m[3][3], s1);
        let e13 = alt(m[2][0], s5, m[2][2], s2, m[2][3], s1);
        let e20 = alt(m[1][0], c4, m[1][1], c2, m[1][3], c0);
        let e21 = alt(m[0][0], c4, m[0][1], c2, m[0][3], c0);
        let e22 = alt(m[3][0], s4, m[3][1], s2, m[3][3], s0);
        let e23 = alt(m[2][0], s4, m[2][1], s2, m[2][3], s0);
        let e30 = alt(m[1][0], c3, m[1][1], c1, m[1][2], c0);
        let e31 = alt(m[0][0], c3, m[0][1], c1, m[0][2], c0);
        let e32 = alt(m[3][0], s3, m[3][1], s1, m[3][2], s0);
        let e33 = alt(m[2][0], s3, m[2][1], s1, m[2][2], s0);
        let out = Matrix4 { m: [
            [scale_unit(e00, u), scale_unit(-e01, u), scale_unit(e02, u), scale_unit(-e03, u)],
            [scale_unit(-e10, u), scale_unit(e11, u), scale_unit(-e12, u), scale_unit(e13, u)],
            [scale_unit(e20, u), scale_unit(-e21, u), scale_unit(e22, u), scale_unit(-e23, u)],
            [scale_unit(-e30, u), scale_unit(e31, u), scale_unit(-e32, u), scale_unit(e33, u)],
        ] };
        assert forall|i: int, j: int| 0 <= i < 4 && 0 <= j < 4 implies #[trigger] out.m[i][j] == adj4(self.m, i, j) * unit_recip(det4(self.m)) by {
            if i == 0 { if j == 0 {} else if j == 1 {} else if j == 2 {} else {} }
            else if i == 1 { if j == 0 {} else if j == 1 {} else if j == 2 {} else {} }
            else if i == 2 { if j == 0 {} else if j == 1 {} else if j == 2 {} else {} }
            else { if j == 0 {} else if j == 1 {} else if j == 2 {} else {} }
        }
        Some(out)
    }

    /// Transforms a point (implicit `w = 1`, translation applied).
    pub fn mul_vec3(&self, v: Vector3<i32>) -> (r: Vector3<i32>)
        requires
            sum4_fits(v.x * self.m[0][0], v.y * self.m[1][0], v.z * self.m[2][0], 1 * self.m[3][0]),
            sum4_fits(v.x * self.m[0][1], v.y * self.m[1][1], v.z * self.m[2][1], 1 * self.m[3][1]),
            sum4_fits(v.x * self.m[0][2], v.y * self.m[1][2], v.z * self.m[2][2], 1 * self.m[3][2]),
        ensures
            r.x == v.x * self.m[0][0] + v.y * self.m[1][0] + v.z * self.m[2][0] + self.m[3][0],
            r.y == v.x * self.m[0][1] + v.y * self.m[1][1] + v.z * self.m[2][1] + self.m[3][1],
            r.z == v.x * self.m[0][2] + v.y * self.m[1][2] + v.z * self.m[2][2] + self.m[3][2],
    {
        let m = &self.m;
        Vector3::new(
            dot4(v.x, v.y, v.z, 1, m[0][0], m[1][0], m[2][0], m[3][0]),
            dot4(v.x, v.y, v.z, 1, m[0][1], m[1][1], m[2][1], m[3][1]),
            dot4(v.x, v.y, v.z, 1, m[0][2], m[1][2], m[2][2], m[3][2]),
        )
    }

    /// Transforms a 4-component vector (`v · M`), without perspective
    /// division: `w` is carried through.
    pub fn mul_vec4(&self, v: Vector4<i32>) -> (r: Vector4<i32>)
        requires
            sum4_fits(v.x * self.m[0][0], v.y * self.m[1][0], v.z * self.m[2][0], v.w * self.m[3][0]),
            sum4_fits(v.x * self.m[0][1], v.y * self.m[1][1], v.z * self.m[2][1], v.w * self.m[3][1]),
            sum4_fits(v.x * self.m[0][2], v.y * self.m[1][2], v.z * self.m[2][2], v.w * self.m[3][2]),
            sum4_fits(v.x * self.m[0][3], v.y * self.m[1][3], v.z * self.m[2][3], v.w * self.m[3][3]),
        ensures
            r.x == v.x * self.m[0][0] + v.y * self.m[1][0] + v.z * self.m[2][0] + v.w * self.m[3][0],
            r.y == v.x * self.m[0][1] + v.y * self.m[1][1] + v.z * self.m[2][1] + v.w * self.m[3][1],
            r.z == v.x * self.m[0][2] + v.y * self.m[1][2] + v.z * self.m[2][2] + v.w * self.m[3][2],
            r.w == v.x * self.m[0][3] + v.y * self.m[1][3] + v.z * self.m[2][3] + v.w * self.m[3][3],
    {
        let m = &self.m;
        Vector4::new(
            dot4(v.x, v.y, v.z, v.w, m[0][0], m[1][0], m[2][0], m[3][0]),
            dot4(v.x, v.y, v.z, v.w, m[0][1], m[1][1], m[2][1], m[3][1]),
            dot4(v.x, v.y, v.z, v.w, m[0][2], m[1][2], m[2][2], m[3][2]),
            dot4(v.x, v.y, v.z, v.w, m[0][3], m[1][3], m[2][3], m[3][3]),
        )
    }

    /// Point transform (alias for [`mul_vec3`](Self::mul_vec3)).
    pub fn transform_point(&self, v: Vector3<i32>) -> (r: Vector3<i32>)
        requires
            sum4_fits(v.x * self.m[0][0], v.y * self.m[1][0], v.z * self.m[2][0], 1 * self.m[3][0]),
            sum4_fits(v.x * self.m[0][1], v.y * self.m[1][1], v.z * self.m[2][1], 1 * self.m[3][1]),
            sum4_fits(v.x * self.m[0][2], v.y * self.m[1][2], v.z * self.m[2][2], 1 * self.m[3][2]),
        ensures
            r.x == v.x * self.m[0][0] + v.y * self.m[1][0] + v.z * self.m[2][0] + self.m[3][0],
            r.y == v.x * self.m[0][1] + v.y * self.m[1][1] + v.z * self.m[2][1] + self.m[3][1],
            r.z == v.x * self.m[0][2] + v.y * self.m[1][2] + v.z * self.m[2][2] + self.m[3][2],
    {
        self.mul_vec3(v)
    }

    /// Direction transform (`w = 0`, no translation): rotation/scale only.
    pub fn transform_vec3(&self, v: Vector3<i32>) -> (r: Vector3<i32>)
        requires
            sum3_fits(v.x * self.m[0][0], v.y * self.m[1][0], v.z * self.m[2][0]),
            sum3_fits(v.x * self.m[0][1], v.y * self.m[1][1], v.z * self.m[2][1]),
            sum3_fits(v.x * self.m[0][2], v.y * self.m[1][2], v.z * self.m[2][2]),
        ensures
            r.x == v.x * self.m[0][0] + v.y * self.m[1][0] + v.z * self.m[2][0],
            r.y == v.x * self.m[0][1] + v.y * self.m[1][1] + v.z * self.m[2][1],
            r.z == v.x * self.m[0][2] + v.y * self.m[1][2] + v.z * self.m[2][2],
    {
        let m = &self.m;
        Vector3::new(
            dot3(v.x, v.y, v.z, m[0][0], m[1][0], m[2][0]),
            dot3(v.x, v.y, v.z, m[0][1], m[1][1], m[2][1]),
            dot3(v.x, v.y, v.z, m[0][2], m[1][2], m[2][2]),
        )
    }

    /// Flattens the matrix into column-major order `[c*4 + r]`, the
    /// transpose of the row-major layout.
    pub fn to_col_major(&self) -> (r: [i32; 16])
        ensures
            forall|i: int, j: int| 0 <= i < 4 && 0 <= j < 4 ==> #[trigger] r[j * 4 + i] == self.m[i][j],
    {
        let m = &self.m;
        let r = [m[0][0], m[1][0], m[2][0], m[3][0], m[0][1], m[1][1], m[2][1], m[3][1], m[0][2], m[1][2], m[2][2], m[3][2], m[0][3], m[1][3], m[2][3], m[3][3]];
        assert forall|i: int, j: int| 0 <= i < 4 && 0 <= j < 4 implies #[trigger] r[j * 4 + i] == self.m[i][j] by {
            assert(0 <= j * 4 + i < 16);
        }
        r
    }

    /// Rebuilds a row-major matrix from a column-major flat array.
    pub fn from_col_major(d: &[i32; 16]) -> (r: Self)
        ensures
            forall|i: int, j: int| 0 <= i < 4 && 0 <= j < 4 ==> #[trigger] r.m[i][j] == d[j * 4 + i],
    {
        let r = Matrix4 { m: [[d[0], d[4], d[8], d[12]], [d[1], d[5], d[9], d[13]], [d[2], d[6], d[10], d[14]], [d[3], d[7], d[11], d[15]]] };
        assert forall|i: int, j: int| 0 <= i < 4 && 0 <= j < 4 implies #[trigger] r.m[i][j] == d[j * 4 + i] by {
            if i == 0 { if j == 0 {} else if j == 1 {} else if j == 2 {} else {} }
            else if i == 1 { if j == 0 {} else if j == 1 {} else if j == 2 {} else {} }
            else if i == 2 { if j == 0 {} else if j == 1 {} else if j == 2 {} else {} }
            else { if j == 0 {} else if j == 1 {} else if j == 2 {} else {} }
        }
        r
    }
}

/// Free-function point transform (`v · m`, translation applied).
pub fn transform_point(v: Vector3<i32>, m: &Matrix4<i32>) -> (r: Vector3<i32>)
    requires
        sum4_fits(v.x * m.m[0][0], v.y * m.m[1][0], v.z * m.m[2][0], 1 * m.m[3][0]),
        sum4_fits(v.x * m.m[0][1], v.y * m.m[1][1], v.z * m.m[2][1], 1 * m.m[3][1]),
        sum4_fits(v.x * m.m[0][2], v.y * m.m[1][2], v.z * m.m[2][2], 1 * m.m[3][2]),
    ensures
        r.x == v.x * m.m[0][0] + v.y * m.m[1][0] + v.z * m.m[2][0] + m.m[3][0],
        r.y == v.x * m.m[0][1] + v.y * m.m[1][1] + v.z * m.m[2][1] + m.m[3][1],
        r.z == v.x * m.m[0][2] + v.y * m.m[1][2] + v.z * m.m[2][2] + m.m[3][2],
{
    m.mul_vec3(v)
}

/// Free-function direction transform (`w = 0`, no translation).
pub fn transform_vec3(v: Vector3<i32>, m: &Matrix4<i32>) -> (r: Vector3<i32>)
    requires
        sum3_fits(v.x * m.m[0][0], v.y * m.m[1][0], v.z * m.m[2][0]),
        sum3_fits(v.x * m.m[0][1], v.y * m.m[1][1], v.z * m.m[2][1]),
        sum3_fits(v.x * m.m[0][2], v.y * m.m[1][2], v.z * m.m[2][2]),
    ensures
        r.x == v.x * m.m[0][0] + v.y * m.m[1][0] + v.z * m.m[2][0],
        r.y == v.x * m.m[0][1] + v.y * m.m[1][1] + v.z * m.m[2][1],
        r.z == v.x * m.m[0][2] + v.y * m.m[1][2] + v.z * m.m[2][2],
{
    m.transform_vec3(v)
}

/// `a·(x - y) = a·x - a·y`.
proof fn lemma_mul_sub(a: int, x: int, y: int)
    by (nonlinear_arith)
    ensures
        a * (x - y) == a * x - a * y,
{
}

/// `x·(y·z) = y·(x·z)`.
proof fn lemma_mul_swap(x: int, y: int, z: int)
    by (nonlinear_arith)
    ensures
        x * (y * z) == y * (x * z),
{
}

/// `a·(c·u) = (a·c)·u`.
proof fn lemma_mul_regroup(a: int, c: int, u: int)
    by (nonlinear_arith)
    ensures
        a * (c * u) == (a * c) * u,
{
}

/// `(s0 + s1 + s2)·u = s0·u + s1·u + s2·u`.
proof fn lemma_sum3_times(s0: int, s1: int, s2: int, u: int)
    by (nonlinear_arith)
    ensures
        (s0 + s1 + s2) * u == s0 * u + s1 * u + s2 * u,
{
}

/// A row against the cross product of itself and another row vanishes.
proof fn lemma_cross_first(p0: int, p1: int, p2: int, q0: int, q1: int, q2: int)
    by (nonlinear_arith)
    ensures
        p0 * (p1 * q2 - p2 * q1) + p1 * (p2 * q0 - p0 * q2) + p2 * (p0 * q1 - p1 * q0) == 0,
{
}

/// A row against the cross product of another row and itself vanishes.
proof fn lemma_cross_second(p0: int, p1: int, p2: int, q0: int, q1: int, q2: int)
    by (nonlinear_arith)
    ensures
        q0 * (p1 * q2 - p2 * q1) + q1 * (p2 * q0 - p0 * q2) + q2 * (p0 * q1 - p1 * q0) == 0,
{
}

/// The 3×3 determinant expanded along the second and the third row equals
/// its expansion along the first.
proof fn lemma_det3_rows(m00: int, m01: int, m02: int, m10: int, m11: int, m12: int, m20: int, m21: int, m22: int)
    ensures
        m10 * (m02 * m21 - m01 * m22) + m11 * (m00 * m22 - m02 * m20) + m12 * (m01 * m20 - m00 * m21)
            == m00 * (m11 * m22 - m12 * m21) - m01 * (m10 * m22 - m12 * m20) + m02 * (m10 * m21 - m11 * m20),
        m20 * (m01 * m12 - m02 * m11) + m21 * (m02 * m10 - m00 * m12) + m22 * (m00 * m11 - m01 * m10)
            == m00 * (m11 * m22 - m12 * m21) - m01 * (m10 * m22 - m12 * m20) + m02 * (m10 * m21 - m11 * m20),
{
    lemma_mul_sub(m00, m11 * m22, m12 * m21);
    lemma_mul_sub(m01, m10 * m22, m12 * m20);
    lemma_mul_sub(m02, m10 * m21, m11 * m20);
    lemma_mul_sub(m10, m02 * m21, m01 * m22);
    lemma_mul_sub(m11, m00 * m22, m02 * m20);
    lemma_mul_sub(m12, m01 * m20, m00 * m21);
    lemma_mul_sub(m20, m01 * m12, m02 * m11);
    lemma_mul_sub(m21, m02 * m10, m00 * m12);
    lemma_mul_sub(m22, m00 * m11, m01 * m10);
    lemma_mul_swap(m10, m02, m21);
    lemma_mul_swap(m10, m01, m22);
    lemma_mul_swap(m11, m00, m22);
    lemma_mul_swap(m11, m02, m20);
    lemma_mul_swap(m12, m01, m20);
    lemma_mul_swap(m12, m00, m21);
    lemma_mul_swap(m20, m01, m12);
    lemma_mul_swap(m20, m02, m11);
    lemma_mul_swap(m21, m02, m10);
    lemma_mul_swap(m21, m00, m12);
    lemma_mul_swap(m22, m00, m11);
    lemma_mul_swap(m22, m01, m10);
}

/// A unit `d` times its reciprocal is 1, and 0 times it is 0.
proof fn lemma_unit_times_recip(d: int, s: int)
    requires
        d == 1 || d == -1,
        s == d || s == 0,
    ensures
        s * unit_recip(d) == if s == d { 1int } else { 0int },
{
    let u = unit_recip(d);
    assert(s * u == if s == d { 1int } else { 0int }) by (nonlinear_arith)
        requires
            d == 1 || d == -1,
            s == d || s == 0,
            d == 1 ==> u == 1,
            d == -1 ==> u == -1,
    ;
}

/// A 3×3 matrix with a unit determinant (1 or -1) times its inverse is the
/// identity.
pub proof fn lemma_inverse3_unimodular(m: [[i32; 3]; 3], inv: [[i32; 3]; 3], p: [[i32; 3]; 3])
    requires
        det3(m) == 1 || det3(m) == -1,
        forall|i: int, j: int| 0 <= i < 3 && 0 <= j < 3 ==> #[trigger] inv[i][j] == adj3(m, i, j) * unit_recip(det3(m)),
        is_product3(p, m, inv),
    ensures
        forall|i: int, j: int| 0 <= i < 3 && 0 <= j < 3 ==> #[trigger] p[i][j] == if i == j { 1int } else { 0int },
{
    let d = det3(m);
    let u = unit_recip(d);
    let m00 = m[0][0] as int;
    let m01 = m[0][1] as int;
    let m02 = m[0][2] as int;
    let m10 = m[1][0] as int;
    let m11 = m[1][1] as int;
    let m12 = m[1][2] as int;
    let m20 = m[2][0] as int;
    let m21 = m[2][1] as int;
    let m22 = m[2][2] as int;
    lemma_det3_rows(m00, m01, m02, m10, m11, m12, m20, m21, m22);
    lemma_cross_first(m10, m11, m12, m20, m21, m22);
    lemma_cross_second(m10, m11, m12, m20, m21, m22);
    lemma_cross_first(m20, m21, m22, m00, m01, m02);
    lemma_cross_second(m20, m21, m22, m00, m01, m02);
    lemma_cross_first(m00, m01, m02, m10, m11, m12);
    lemma_cross_second(m00, m01, m02, m10, m11, m12);
    lemma_mul_sub(m01, m12 * m20, m10 * m22);
    lemma_mul_sub(m01, m10 * m22, m12 * m20);
    assert forall|i: int, j: int| 0 <= i < 3 && 0 <= j < 3 implies #[trigger] p[i][j] == if i == j { 1int } else { 0int } by {
        let c0 = adj3(m, 0, j);
        let c1 = adj3(m, 1, j);
        let c2 = adj3(m, 2, j);
        let a0 = m[i][0] as int;
        let a1 = m[i][1] as int;
        let a2 = m[i][2] as int;
        assert(inv[0][j] == c0 * u && inv[1][j] == c1 * u && inv[2][j] == c2 * u);
        lemma_mul_regroup(a0, c0, u);
        lemma_mul_regroup(a1, c1, u);
        lemma_mul_regroup(a2, c2, u);
        lemma_sum3_times(a0 * c0, a1 * c1, a2 * c2, u);
        let s = a0 * c0 + a1 * c1 + a2 * c2;
        assert(p[i][j] == s * u) by {
            if i == 0 { if j == 0 {} else if j == 1 {} else {} }
            else if i == 1 { if j == 0 {} else if j == 1 {} else {} }
            else { if j == 0 {} else if j == 1 {} else {} }
        }
        assert(s == if i == j { d } else { 0 }) by {
            if i == 0 { if j == 0 {} else if j == 1 {} else {} }
            else if i == 1 { if j == 0 {} else if j == 1 {} else {} }
            else { if j == 0 {} else if j == 1 {} else {} }
        }
        lemma_unit_times_recip(d, s);
    }
}

/// `a·(x - y + z) = a·x - a·y + a·z`.
proof fn lemma_mul_alt3(a: int, x: int, y: int, z: int)
    by (nonlinear_arith)
    ensures
        a * (x - y + z) == a * x - a * y + a * z,
{
}

/// `a·(-(x - y + z)) = -(a·x) + a·y - a·z`.
proof fn lemma_mul_neg_alt3(a: int, x: int, y: int, z: int)
    by (nonlinear_arith)
    ensures
        a * (-(x - y + z)) == -(a * x) + a * y - a * z,
{
}

/// A vanishing alternating sum stays 0 when every term is scaled by `e`.
proof fn lemma_scale_alt3(e: int, x: int, y: int, z: int)
    by (nonlinear_arith)
    requires
        x - y + z == 0,
    ensures
        e * x - e * y + e * z == 0,
{
}

/// The 3×3 determinant of rows `p`, `p`, `q`, expanded along the first
/// row, vanishes.
proof fn lemma_laplace_first(pa: int, pb: int, pc: int, qa: int, qb: int, qc: int)
    by (nonlinear_arith)
    ensures
        pa * (pb * qc - qb * pc) - pb * (pa * qc - qa * pc) + pc * (pa * qb - qa * pb) == 0,
{
}

/// The 3×3 determinant of rows `q`, `p`, `q`, expanded along the first
/// row, vanishes.
proof fn lemma_laplace_second(pa: int, pb: int, pc: int, qa: int, qb: int, qc: int)
    by (nonlinear_arith)
    ensures
        qa * (pb * qc - qb * pc) - qb * (pa * qc - qa * pc) + qc * (pa * qb - qa * pb) == 0,
{
}

/// `x·y = y·x`.
proof fn lemma_mul_commute(x: int, y: int)
    by (nonlinear_arith)
    ensures
        x * y == y * x,
{
}

/// `(s0 + s1 + s2 + s3)·u = s0·u + s1·u + s2·u + s3·u`.
proof fn lemma_sum4_times(s0: int, s1: int, s2: int, s3: int, u: int)
    by (nonlinear_arith)
    ensures
        (s0 + s1 + s2 + s3) * u == s0 * u + s1 * u + s2 * u + s3 * u,
{
}

/// Row `i` of a 4×4 matrix against column `j` of its adjugate.
pub open spec fn adj4_dot(m: [[i32; 4]; 4], i: int, j: int) -> int {
    m[i][0] * adj4(m, 0, j) + m[i][1] * adj4(m, 1, j) + m[i][2] * adj4(m, 2, j) + m[i][3] * adj4(m, 3, j)
}

/// Each row of a 4×4 matrix against the first column of its adjugate:
/// the determinant for row 0, 0 for the others.
proof fn lemma_adj4_col0(m: [[i32; 4]; 4])
    ensures
        adj4_dot(m, 0, 0) == det4(m),
        adj4_dot(m, 1, 0) == 0,
        adj4_dot(m, 2, 0) == 0,
        adj4_dot(m, 3, 0) == 0,
{
    let m00 = m[0][0] as int;
    let m01 = m[0][1] as int;
    let m02 = m[0][2] as int;
    let m03 = m[0][3] as int;
    let m10 = m[1][0] as int;
    let m11 = m[1][1] as int;
    let m12 = m[1][2] as int;
    let m13 = m[1][3] as int;
    let m20 = m[2][0] as int;
    let m21 = m[2][1] as int;
    let m22 = m[2][2] as int;
    let m23 = m[2][3] as int;
    let m30 = m[3][0] as int;
    let m31 = m[3][1] as int;
    let m32 = m[3][2] as int;
    let m33 = m[3][3] as int;
    let s0 = m00 * m11 - m10 * m01;
    let s1 = m00 * m12 - m10 * m02;
    let s2 = m00 * m13 - m10 * m03;
    let s3 = m01 * m12 - m11 * m02;
    let s4 = m01 * m13 - m11 * m03;
    let s5 = m02 * m13 - m12 * m03;
    let k0 = m20 * m31 - m30 * m21;
    let k1 = m20 * m32 - m30 * m22;
    let k2 = m20 * m33 - m30 * m23;
    let k3 = m21 * m32 - m31 * m22;
    let k4 = m21 * m33 - m31 * m23;
    let k5 = m22 * m33 - m32 * m23;
    lemma_mul_alt3(m00, m11 * k5, m12 * k4, m13 * k3);
    lemma_mul_neg_alt3(m01, m10 * k5, m12 * k2, m13 * k1);
    lemma_mul_alt3(m02, m10 * k4, m11 * k2, m13 * k0);
    lemma_mul_neg_alt3(m03, m10 * k3, m11 * k1, m12 * k0);
    lemma_mul_swap(m00, k5, m11);
    lemma_mul_swap(m00, k4, m12);
    lemma_mul_swap(m00, k3, m13);
    lemma_mul_swap(m01, k5, m10);
    lemma_mul_swap(m01, k2, m12);
    lemma_mul_swap(m01, k1, m13);
    lemma_mul_swap(m02, k4, m10);
    lemma_mul_swap(m02, k2, m11);
    lemma_mul_swap(m02, k0, m13);
    lemma_mul_swap(m03, k3, m10);
    lemma_mul_swap(m03, k1, m11);
    lemma_mul_swap(m03, k0, m12);
    lemma_mul_sub(k0, m02 * m13, m12 * m03);
    lemma_mul_commute(k0, s5);
    lemma_mul_sub(k1, m01 * m13, m11 * m03);
    lemma_mul_commute(k1, s4);
    lemma_mul_sub(k2, m01 * m12, m11 * m02);
    lemma_mul_commute(k2, s3);
    lemma_mul_sub(k3, m00 * m13, m10 * m03);
    lemma_mul_commute(k3, s2);
    lemma_mul_sub(k4, m00 * m12, m10 * m02);
    lemma_mul_commute(k4, s1);
    lemma_mul_sub(k5, m00 * m11, m10 * m01);
    lemma_mul_commute(k5, s0);
    lemma_mul_alt3(m10, m11 * k5, m12 * k4, m13 * k3);
    lemma_mul_neg_alt3(m11, m10 * k5, m12 * k2, m13 * k1);
    lemma_mul_alt3(m12, m10 * k4, m11 * k2, m13 * k0);
    lemma_mul_neg_alt3(m13, m10 * k3, m11 * k1, m12 * k0);
    lemma_mul_swap(m10, k5, m11);
    lemma_mul_swap(m10, k4, m12);
    lemma_mul_swap(m10, k3, m13);
    lemma_mul_swap(m11, k5, m10);
    lemma_mul_swap(m11, k2, m12);
    lemma_mul_swap(m11, k1, m13);
    lemma_mul_swap(m12, k4, m10);
    lemma_mul_swap(m12, k2, m11);
    lemma_mul_swap(m12, k0, m13);
    lemma_mul_swap(m13, k3, m10);
    lemma_mul_swap(m13, k1, m11);
    lemma_mul_swap(m13, k0, m12);
    lemma_mul_alt3(m20, m11 * k5, m12 * k4, m13 * k3);
    lemma_mul_neg_alt3(m21, m10 * k5, m12 * k2, m13 * k1);
    lemma_mul_alt3(m22, m10 * k4, m11 * k2, m13 * k0);
    lemma_mul_neg_alt3(m23, m10 * k3, m11 * k1, m12 * k0);
    lemma_mul_swap(m20, m11, k5);
    lemma_mul_swap(m20, m12, k4);
    lemma_mul_swap(m20, m13, k3);
    lemma_mul_swap(m21, m10, k5);
    lemma_mul_swap(m21, m12, k2);
    lemma_mul_swap(m21, m13, k1);
    lemma_mul_swap(m22, m10, k4);
    lemma_mul_swap(m22, m11, k2);
    lemma_mul_swap(m22, m13, k0);
    lemma_mul_swap(m23, m10, k3);
    lemma_mul_swap(m23, m11, k1);
    lemma_mul_swap(m23, m12, k0);
    lemma_laplace_first(m21, m22, m23, m31, m32, m33);
    lemma_scale_alt3(m10, m21 * k5, m22 * k4, m23 * k3);
    lemma_laplace_first(m20, m22, m23, m30, m32, m33);
    lemma_scale_alt3(m11, m20 * k5, m22 * k2, m23 * k1);
    lemma_laplace_first(m20, m21, m23, m30, m31, m33);
    lemma_scale_alt3(m12, m20 * k4, m21 * k2, m23 * k0);
    lemma_laplace_first(m20, m21, m22, m30, m31, m32);
    lemma_scale_alt3(m13, m20 * k3, m21 * k1, m22 * k0);
    lemma_mul_alt3(m30, m11 * k5, m12 * k4, m13 * k3);
    lemma_mul_neg_alt3(m31, m10 * k5, m12 * k2, m13 * k1);
    lemma_mul_alt3(m32, m10 * k4, m11 * k2, m13 * k0);
    lemma_mul_neg_alt3(m33, m10 * k3, m11 * k1, m12 * k0);
    lemma_mul_swap(m30, m11, k5);
    lemma_mul_swap(m30, m12, k4);
    lemma_mul_swap(m30, m13, k3);
    lemma_mul_swap(m31, m10, k5);
    lemma_mul_swap(m31, m12, k2);
    lemma_mul_swap(m31, m13, k1);
    lemma_mul_swap(m32, m10, k4);
    lemma_mul_swap(m32, m11, k2);
    lemma_mul_swap(m32, m13, k0);
    lemma_mul_swap(m33, m10, k3);
    lemma_mul_swap(m33, m11, k1);
    lemma_mul_swap(m33, m12, k0);
    lemma_laplace_second(m21, m22, m23, m31, m32, m33);
    lemma_scale_alt3(m10, m31 * k5, m32 * k4, m33 * k3);
    lemma_laplace_second(m20, m22, m23, m30, m32, m33);
    lemma_scale_alt3(m11, m30 * k5, m32 * k2, m33 * k1);
    lemma_laplace_second(m20, m21, m23, m30, m31, m33);
    lemma_scale_alt3(m12, m30 * k4, m31 * k2, m33 * k0);
    lemma_laplace_second(m20, m21, m22, m30, m31, m32);
    lemma_scale_alt3(m13, m30 * k3, m31 * k1, m32 * k0);
}

/// Each row of a 4×4 matrix against the second column of its adjugate:
/// the determinant for row 1, 0 for the others.
proof fn lemma_adj4_col1(m: [[i32; 4]; 4])
    ensures
        adj4_dot(m, 0, 1) == 0,
        adj4_dot(m, 1, 1) == det4(m),
        adj4_dot(m, 2, 1) == 0,
        adj4_dot(m, 3, 1) == 0,
{
    let m00 = m[0][0] as int;
    let m01 = m[0][1] as int;
    let m02 = m[0][2] as int;
    let m03 = m[0][3] as int;
    let m10 = m[1][0] as int;
    let m11 = m[1][1] as int;
    let m12 = m[1][2] as int;
    let m13 = m[1][3] as int;
    let m20 = m[2][0] as int;
    let m21 = m[2][1] as int;
    let m22 = m[2][2] as int;
    let m23 = m[2][3] as int;
    let m30 = m[3][0] as int;
    let m31 = m[3][1] as int;
    let m32 = m[3][2] as int;
    let m33 = m[3][3] as int;
    let s0 = m00 * m11 - m10 * m01;
    let s1 = m00 * m12 - m10 * m02;
    let s2 = m00 * m13 - m10 * m03;
    let s3 = m01 * m12 - m11 * m02;
    let s4 = m01 * m13 - m11 * m03;
    let s5 = m02 * m13 - m12 * m03;
    let k0 = m20 * m31 - m30 * m21;
    let k1 = m20 * m32 - m30 * m22;
    let k2 = m20 * m33 - m30 * m23;
    let k3 = m21 * m32 - m31 * m22;
    let k4 = m21 * m33 - m31 * m23;
    let k5 = m22 * m33 - m32 * m23;
    lemma_mul_neg_alt3(m00, m01 * k5, m02 * k4, m03 * k3);
    lemma_mul_alt3(m01, m00 * k5, m02 * k2, m03 * k1);
    lemma_mul_neg_alt3(m02, m00 * k4, m01 * k2, m03 * k0);
    lemma_mul_alt3(m03, m00 * k3, m01 * k1, m02 * k0);
    lemma_mul_swap(m00, k5, m01);
    lemma_mul_swap(m00, k4, m02);
    lemma_mul_swap(m00, k3, m03);
    lemma_mul_swap(m01, k5, m00);
    lemma_mul_swap(m01, k2, m02);
    lemma_mul_swap(m01, k1, m03);
    lemma_mul_swap(m02, k4, m00);
    lemma_mul_swap(m02, k2, m01);
    lemma_mul_swap(m02, k0, m03);
    lemma_mul_swap(m03, k3, m00);
    lemma_mul_swap(m03, k1, m01);
    lemma_mul_swap(m03, k0, m02);
    lemma_mul_neg_alt3(m10, m01 * k5, m02 * k4, m03 * k3);
    lemma_mul_alt3(m11, m00 * k5, m02 * k2, m03 * k1);
    lemma_mul_neg_alt3(m12, m00 * k4, m01 * k2, m03 * k0);
    lemma_mul_alt3(m13, m00 * k3, m01 * k1, m02 * k0);
    lemma_mul_swap(m10, k5, m01);
    lemma_mul_swap(m10, k4, m02);
    lemma_mul_swap(m10, k3, m03);
    lemma_mul_swap(m11, k5, m00);
    lemma_mul_swap(m11, k2, m02);
    lemma_mul_swap(m11, k1, m03);
    lemma_mul_swap(m12, k4, m00);
    lemma_mul_swap(m12, k2, m01);
    lemma_mul_swap(m12, k0, m03);
    lemma_mul_swap(m13, k3, m00);
    lemma_mul_swap(m13, k1, m01);
    lemma_mul_swap(m13, k0, m02);
    lemma_mul_sub(k0, m02 * m13, m12 * m03);
    lemma_mul_commute(k0, s5);
    lemma_mul_sub(k1, m01 * m13, m11 * m03);
    lemma_mul_commute(k1, s4);
    lemma_mul_sub(k2, m01 * m12, m11 * m02);
    lemma_mul_commute(k2, s3);
    lemma_mul_sub(k3, m00 * m13, m10 * m03);
    lemma_mul_commute(k3, s2);
    lemma_mul_sub(k4, m00 * m12, m10 * m02);
    lemma_mul_commute(k4, s1);
    lemma_mul_sub(k5, m00 * m11, m10 * m01);
    lemma_mul_commute(k5, s0);
    lemma_mul_neg_alt3(m20, m01 * k5, m02 * k4, m03 * k3);
    lemma_mul_alt3(m21, m00 * k5, m02 * k2, m03 * k1);
    lemma_mul_neg_alt3(m22, m00 * k4, m01 * k2, m03 * k0);
    lemma_mul_alt3(m23, m00 * k3, m01 * k1, m02 * k0);
    lemma_mul_swap(m20, m01, k5);
    lemma_mul_swap(m20, m02, k4);
    lemma_mul_swap(m20, m03, k3);
    lemma_mul_swap(m21, m00, k5);
    lemma_mul_swap(m21, m02, k2);
    lemma_mul_swap(m21, m03, k1);
    lemma_mul_swap(m22, m00, k4);
    lemma_mul_swap(m22, m01, k2);
    lemma_mul_swap(m22, m03, k0);
    lemma_mul_swap(m23, m00, k3);
    lemma_mul_swap(m23, m01, k1);
    lemma_mul_swap(m23, m02, k0);
    lemma_laplace_first(m21, m22, m23, m31, m32, m33);
    lemma_scale_alt3(m00, m21 * k5, m22 * k4, m23 * k3);
    lemma_laplace_first(m20, m22, m23, m30, m32, m33);
    lemma_scale_alt3(m01, m20 * k5, m22 * k2, m23 * k1);
    lemma_laplace_first(m20, m21, m23, m30, m31, m33);
    lemma_scale_alt3(m02, m20 * k4, m21 * k2, m23 * k0);
    lemma_laplace_first(m20, m21, m22, m30, m31, m32);
    lemma_scale_alt3(m03, m20 * k3, m21 * k1, m22 * k0);
    lemma_mul_neg_alt3(m30, m01 * k5, m02 * k4, m03 * k3);
    lemma_mul_alt3(m31, m00 * k5, m02 * k2, m03 * k1);
    lemma_mul_neg_alt3(m32, m00 * k4, m01 * k2, m03 * k0);
    lemma_mul_alt3(m33, m00 * k3, m01 * k1, m02 * k0);
    lemma_mul_swap(m30, m01, k5);
    lemma_mul_swap(m30, m02, k4);
    lemma_mul_swap(m30, m03, k3);
    lemma_mul_swap(m31, m00, k5);
    lemma_mul_swap(m31, m02, k2);
    lemma_mul_swap(m31, m03, k1);
    lemma_mul_swap(m32, m00, k4);
    lemma_mul_swap(m32, m01, k2);
    lemma_mul_swap(m32, m03, k0);
    lemma_mul_swap(m33, m00, k3);
    lemma_mul_swap(m33, m01, k1);
    lemma_mul_swap(m33, m02, k0);
    lemma_laplace_second(m21, m22, m23, m31, m32, m33);
    lemma_scale_alt3(m00, m31 * k5, m32 * k4, m33 * k3);
    lemma_laplace_second(m20, m22, m23, m30, m32, m33);
    lemma_scale_alt3(m01, m30 * k5, m32 * k2, m33 * k1);
    lemma_laplace_second(m20, m21, m23, m30, m31, m33);
    lemma_scale_alt3(m02, m30 * k4, m31 * k2, m33 * k0);
    lemma_laplace_second(m20, m21, m22, m30, m31, m32);
    lemma_scale_alt3(m03, m30 * k3, m31 * k1, m32 * k0);
}

/// Each row of a 4×4 matrix against the third column of its adjugate:
/// the determinant for row 2, 0 for the others.
proof fn lemma_adj4_col2(m: [[i32; 4]; 4])
    ensures
        adj4_dot(m, 0, 2) == 0,
        adj4_dot(m, 1, 2) == 0,
        adj4_dot(m, 2, 2) == det4(m),
        adj4_dot(m, 3, 2) == 0,
{
    let m00 = m[0][0] as int;
    let m01 = m[0][1] as int;
    let m02 = m[0][2] as int;
    let m03 = m[0][3] as int;
    let m10 = m[1][0] as int;
    let m11 = m[1][1] as int;
    let m12 = m[1][2] as int;
    let m13 = m[1][3] as int;
    let m20 = m[2][0] as int;
    let m21 = m[2][1] as int;
    let m22 = m[2][2] as int;
    let m23 = m[2][3] as int;
    let m30 = m[3][0] as int;
    let m31 = m[3][1] as int;
    let m32 = m[3][2] as int;
    let m33 = m[3][3] as int;
    let s0 = m00 * m11 - m10 * m01;
    let s1 = m00 * m12 - m10 * m02;
    let s2 = m00 * m13 - m10 * m03;
    let s3 = m01 * m12 - m11 * m02;
    let s4 = m01 * m13 - m11 * m03;
    let s5 = m02 * m13 - m12 * m03;
    let k0 = m20 * m31 - m30 * m21;
    let k1 = m20 * m32 - m30 * m22;
    let k2 = m20 * m33 - m30 * m23;
    let k3 = m21 * m32 - m31 * m22;
    let k4 = m21 * m33 - m31 * m23;
    let k5 = m22 * m33 - m32 * m23;
    lemma_mul_alt3(m00, m31 * s5, m32 * s4, m33 * s3);
    lemma_mul_neg_alt3(m01, m30 * s5, m32 * s2, m33 * s1);
    lemma_mul_alt3(m02, m30 * s4, m31 * s2, m33 * s0);
    lemma_mul_neg_alt3(m03, m30 * s3, m31 * s1, m32 * s0);
    lemma_mul_swap(m00, m31, s5);
    lemma_mul_swap(m00, m32, s4);
    lemma_mul_swap(m00, m33, s3);
    lemma_mul_swap(m01, m30, s5);
    lemma_mul_swap(m01, m32, s2);
    lemma_mul_swap(m01, m33, s1);
    lemma_mul_swap(m02, m30, s4);
    lemma_mul_swap(m02, m31, s2);
    lemma_mul_swap(m02, m33, s0);
    lemma_mul_swap(m03, m30, s3);
    lemma_mul_swap(m03, m31, s1);
    lemma_mul_swap(m03, m32, s0);
    lemma_laplace_first(m01, m02, m03, m11, m12, m13);
    lemma_scale_alt3(m30, m01 * s5, m02 * s4, m03 * s3);
    lemma_laplace_first(m00, m02, m03, m10, m12, m13);
    lemma_scale_alt3(m31, m00 * s5, m02 * s2, m03 * s1);
    lemma_laplace_first(m00, m01, m03, m10, m11, m13);
    lemma_scale_alt3(m32, m00 * s4, m01 * s2, m03 * s0);
    lemma_laplace_first(m00, m01, m02, m10, m11, m12);
    lemma_scale_alt3(m33, m00 * s3, m01 * s1, m02 * s0);
    lemma_mul_alt3(m10, m31 * s5, m32 * s4, m33 * s3);
    lemma_mul_neg_alt3(m11, m30 * s5, m32 * s2, m33 * s1);
    lemma_mul_alt3(m12, m30 * s4, m31 * s2, m33 * s0);
    lemma_mul_neg_alt3(m13, m30 * s3, m31 * s1, m32 * s0);
    lemma_mul_swap(m10, m31, s5);
    lemma_mul_swap(m10, m32, s4);
    lemma_mul_swap(m10, m33, s3);
    lemma_mul_swap(m11, m30, s5);
    lemma_mul_swap(m11, m32, s2);
    lemma_mul_swap(m11, m33, s1);
    lemma_mul_swap(m12, m30, s4);
    lemma_mul_swap(m12, m31, s2);
    lemma_mul_swap(m12, m33, s0);
    lemma_mul_swap(m13, m30, s3);
    lemma_mul_swap(m13, m31, s1);
    lemma_mul_swap(m13, m32, s0);
    lemma_laplace_second(m01, m02, m03, m11, m12, m13);
    lemma_scale_alt3(m30, m11 * s5, m12 * s4, m13 * s3);
    lemma_laplace_second(m00, m02, m03, m10, m12, m13);
    lemma_scale_alt3(m31, m10 * s5, m12 * s2, m13 * s1);
    lemma_laplace_second(m00, m01, m03, m10, m11, m13);
    lemma_scale_alt3(m32, m10 * s4, m11 * s2, m13 * s0);
    lemma_laplace_second(m00, m01, m02, m10, m11, m12);
    lemma_scale_alt3(m33, m10 * s3, m11 * s1, m12 * s0);
    lemma_mul_alt3(m20, m31 * s5, m32 * s4, m33 * s3);
    lemma_mul_neg_alt3(m21, m30 * s5, m32 * s2, m33 * s1);
    lemma_mul_alt3(m22, m30 * s4, m31 * s2, m33 * s0);
    lemma_mul_neg_alt3(m23, m30 * s3, m31 * s1, m32 * s0);
    lemma_mul_swap(m20, s5, m31);
    lemma_mul_swap(m20, s4, m32);
    lemma_mul_swap(m20, s3, m33);
    lemma_mul_swap(m21, s5, m30);
    lemma_mul_swap(m21, s2, m32);
    lemma_mul_swap(m21, s1, m33);
    lemma_mul_swap(m22, s4, m30);
    lemma_mul_swap(m22, s2, m31);
    lemma_mul_swap(m22, s0, m33);
    lemma_mul_swap(m23, s3, m30);
    lemma_mul_swap(m23, s1, m31);
    lemma_mul_swap(m23, s0, m32);
    lemma_mul_sub(s0, m22 * m33, m32 * m23);
    lemma_mul_sub(s1, m21 * m33, m31 * m23);
    lemma_mul_sub(s2, m21 * m32, m31 * m22);
    lemma_mul_sub(s3, m20 * m33, m30 * m23);
    lemma_mul_sub(s4, m20 * m32, m30 * m22);
    lemma_mul_sub(s5, m20 * m31, m30 * m21);
    lemma_mul_alt3(m30, m31 * s5, m32 * s4, m33 * s3);
    lemma_mul_neg_alt3(m31, m30 * s5, m32 * s2, m33 * s1);
    lemma_mul_alt3(m32, m30 * s4, m31 * s2, m33 * s0);
    lemma_mul_neg_alt3(m33, m30 * s3, m31 * s1, m32 * s0);
    lemma_mul_swap(m30, s5, m31);
    lemma_mul_swap(m30, s4, m32);
    lemma_mul_swap(m30, s3, m33);
    lemma_mul_swap(m31, s5, m30);
    lemma_mul_swap(m31, s2, m32);
    lemma_mul_swap(m31, s1, m33);
    lemma_mul_swap(m32, s4, m30);
    lemma_mul_swap(m32, s2, m31);
    lemma_mul_swap(m32, s0, m33);
    lemma_mul_swap(m33, s3, m30);
    lemma_mul_swap(m33, s1, m31);
    lemma_mul_swap(m33, s0, m32);
}

/// Each row of a 4×4 matrix against the fourth column of its adjugate:
/// the determinant for row 3, 0 for the others.
proof fn lemma_adj4_col3(m: [[i32; 4]; 4])
    ensures
        adj4_dot(m, 0, 3) == 0,
        adj4_dot(m, 1, 3) == 0,
        adj4_dot(m, 2, 3) == 0,
        adj4_dot(m, 3, 3) == det4(m),
{
    let m00 = m[0][0] as int;
    let m01 = m[0][1] as int;
    let m02 = m[0][2] as int;
    let m03 = m[0][3] as int;
    let m10 = m[1][0] as int;
    let m11 = m[1][1] as int;
    let m12 = m[1][2] as int;
    let m13 = m[1][3] as int;
    let m20 = m[2][0] as int;
    let m21 = m[2][1] as int;
    let m22 = m[2][2] as int;
    let m23 = m[2][3] as int;
    let m30 = m[3][0] as int;
    let m31 = m[3][1] as int;
    let m32 = m[3][2] as int;
    let m33 = m[3][3] as int;
    let s0 = m00 * m11 - m10 * m01;
    let s1 = m00 * m12 - m10 * m02;
    let s2 = m00 * m13 - m10 * m03;
    let s3 = m01 * m12 - m11 * m02;
    let s4 = m01 * m13 - m11 * m03;
    let s5 = m02 * m13 - m12 * m03;
    let k0 = m20 * m31 - m30 * m21;
    let k1 = m20 * m32 - m30 * m22;
    let k2 = m20 * m33 - m30 * m23;
    let k3 = m21 * m32 - m31 * m22;
    let k4 = m21 * m33 - m31 * m23;
    let k5 = m22 * m33 - m32 * m23;
    lemma_mul_neg_alt3(m00, m21 * s5, m22 * s4, m23 * s3);
    lemma_mul_alt3(m01, m20 * s5, m22 * s2, m23 * s1);
    lemma_mul_neg_alt3(m02, m20 * s4, m21 * s2, m23 * s0);
    lemma_mul_alt3(m03, m20 * s3, m21 * s1, m22 * s0);
    lemma_mul_swap(m00, m21, s5);
    lemma_mul_swap(m00, m22, s4);
    lemma_mul_swap(m00, m23, s3);
    lemma_mul_swap(m01, m20, s5);
    lemma_mul_swap(m01, m22, s2);
    lemma_mul_swap(m01, m23, s1);
    lemma_mul_swap(m02, m20, s4);
    lemma_mul_swap(m02, m21, s2);
    lemma_mul_swap(m02, m23, s0);
    lemma_mul_swap(m03, m20, s3);
    lemma_mul_swap(m03, m21, s1);
    lemma_mul_swap(m03, m22, s0);
    lemma_laplace_first(m01, m02, m03, m11, m12, m13);
    lemma_scale_alt3(m20, m01 * s5, m02 * s4, m03 * s3);
    lemma_laplace_first(m00, m02, m03, m10, m12, m13);
    lemma_scale_alt3(m21, m00 * s5, m02 * s2, m03 * s1);
    lemma_laplace_first(m00, m01, m03, m10, m11, m13);
    lemma_scale_alt3(m22, m00 * s4, m01 * s2, m03 * s0);
    lemma_laplace_first(m00, m01, m02, m10, m11, m12);
    lemma_scale_alt3(m23, m00 * s3, m01 * s1, m02 * s0);
    lemma_mul_neg_alt3(m10, m21 * s5, m22 * s4, m23 * s3);
    lemma_mul_alt3(m11, m20 * s5, m22 * s2, m23 * s1);
    lemma_mul_neg_alt3(m12, m20 * s4, m21 * s2, m23 * s0);
    lemma_mul_alt3(m13, m20 * s3, m21 * s1, m22 * s0);
    lemma_mul_swap(m10, m21, s5);
    lemma_mul_swap(m10, m22, s4);
    lemma_mul_swap(m10, m23, s3);
    lemma_mul_swap(m11, m20, s5);
    lemma_mul_swap(m11, m22, s2);
    lemma_mul_swap(m11, m23, s1);
    lemma_mul_swap(m12, m20, s4);
    lemma_mul_swap(m12, m21, s2);
    lemma_mul_swap(m12, m23, s0);
    lemma_mul_swap(m13, m20, s3);
    lemma_mul_swap(m13, m21, s1);
    lemma_mul_swap(m13, m22, s0);
    lemma_laplace_second(m01, m02, m03, m11, m12, m13);
    lemma_scale_alt3(m20, m11 * s5, m12 * s4, m13 * s3);
    lemma_laplace_second(m00, m02, m03, m10, m12, m13);
    lemma_scale_alt3(m21, m10 * s5, m12 * s2, m13 * s1);
    lemma_laplace_second(m00, m01, m03, m10, m11, m13);
    lemma_scale_alt3(m22, m10 * s4, m11 * s2, m13 * s0);
    lemma_laplace_second(m00, m01, m02, m10, m11, m12);
    lemma_scale_alt3(m23, m10 * s3, m11 * s1, m12 * s0);
    lemma_mul_neg_alt3(m20, m21 * s5, m22 * s4, m23 * s3);
    lemma_mul_alt3(m21, m20 * s5, m22 * s2, m23 * s1);
    lemma_mul_neg_alt3(m22, m20 * s4, m21 * s2, m23 * s0);
    lemma_mul_alt3(m23, m20 * s3, m21 * s1, m22 * s0);
    lemma_mul_swap(m20, s5, m21);
    lemma_mul_swap(m20, s4, m22);
    lemma_mul_swap(m20, s3, m23);
    lemma_mul_swap(m21, s5, m20);
    lemma_mul_swap(m21, s2, m22);
    lemma_mul_swap(m21, s1, m23);
    lemma_mul_swap(m22, s4, m20);
    lemma_mul_swap(m22, s2, m21);
    lemma_mul_swap(m22, s0, m23);
    lemma_mul_swap(m23, s3, m20);
    lemma_mul_swap(m23, s1, m21);
    lemma_mul_swap(m23, s0, m22);
    lemma_mul_neg_alt3(m30, m21 * s5, m22 * s4, m23 * s3);
    lemma_mul_alt3(m31, m20 * s5, m22 * s2, m23 * s1);
    lemma_mul_neg_alt3(m32, m20 * s4, m21 * s2, m23 * s0);
    lemma_mul_alt3(m33, m20 * s3, m21 * s1, m22 * s0);
    lemma_mul_swap(m30, s5, m21);
    lemma_mul_swap(m30, s4, m22);
    lemma_mul_swap(m30, s3, m23);
    lemma_mul_swap(m31, s5, m20);
    lemma_mul_swap(m31, s2, m22);
    lemma_mul_swap(m31, s1, m23);
    lemma_mul_swap(m32, s4, m20);
    lemma_mul_swap(m32, s2, m21);
    lemma_mul_swap(m32, s0, m23);
    lemma_mul_swap(m33, s3, m20);
    lemma_mul_swap(m33, s1, m21);
    lemma_mul_swap(m33, s0, m22);
    lemma_mul_sub(s0, m22 * m33, m32 * m23);
    lemma_mul_sub(s1, m21 * m33, m31 * m23);
    lemma_mul_sub(s2, m21 * m32, m31 * m22);
    lemma_mul_sub(s3, m20 * m33, m30 * m23);
    lemma_mul_sub(s4, m20 * m32, m30 * m22);
    lemma_mul_sub(s5, m20 * m31, m30 * m21);
}

/// A 4×4 matrix with a unit determinant (1 or -1) times its inverse is the
/// identity.
pub proof fn lemma_inverse4_unimodular(m: [[i32; 4]; 4], inv: [[i32; 4]; 4], p: [[i32; 4]; 4])
    requires
        det4(m) == 1 || det4(m) == -1,
        forall|i: int, j: int| 0 <= i < 4 && 0 <= j < 4 ==> #[trigger] inv[i][j] == adj4(m, i, j) * unit_recip(det4(m)),
        is_product4(p, m, inv),
    ensures
        forall|i: int, j: int| 0 <= i < 4 && 0 <= j < 4 ==> #[trigger] p[i][j] == if i == j { 1int } else { 0int },
{
    let d = det4(m);
    let u = unit_recip(d);
    lemma_adj4_col0(m);
    lemma_adj4_col1(m);
    lemma_adj4_col2(m);
    lemma_adj4_col3(m);
    assert forall|i: int, j: int| 0 <= i < 4 && 0 <= j < 4 implies #[trigger] p[i][j] == if i == j { 1int } else { 0int } by {
        let c0 = adj4(m, 0, j);
        let c1 = adj4(m, 1, j);
        let c2 = adj4(m, 2, j);
        let c3 = adj4(m, 3, j);
        let a0 = m[i][0] as int;
        let a1 = m[i][1] as int;
        let a2 = m[i][2] as int;
        let a3 = m[i][3] as int;
        assert(inv[0][j] == c0 * u && inv[1][j] == c1 * u && inv[2][j] == c2 * u && inv[3][j] == c3 * u);
        lemma_mul_regroup(a0, c0, u);
        lemma_mul_regroup(a1, c1, u);
        lemma_mul_regroup(a2, c2, u);
        lemma_mul_regroup(a3, c3, u);
        lemma_sum4_times(a0 * c0, a1 * c1, a2 * c2, a3 * c3, u);
        let s = a0 * c0 + a1 * c1 + a2 * c2 + a3 * c3;
        assert(s == adj4_dot(m, i, j));
        assert(p[i][j] == s * u) by {
            if i == 0 { if j == 0 {} else if j == 1 {} else if j == 2 {} else {} }
            else if i == 1 { if j == 0 {} else if j == 1 {} else if j == 2 {} else {} }
            else if i == 2 { if j == 0 {} else if j == 1 {} else if j == 2 {} else {} }
            else { if j == 0 {} else if j == 1 {} else if j == 2 {} else {} }
        }
        assert(s == if i == j { d } else { 0 }) by {
            if i == 0 { if j == 0 {} else if j == 1 {} else if j == 2 {} else {} }
            else if i == 1 { if j == 0 {} else if j == 1 {} else if j == 2 {} else {} }
            else if i == 2 { if j == 0 {} else if j == 1 {} else if j == 2 {} else {} }
            else { if j == 0 {} else if j == 1 {} else if j == 2 {} else {} }
        }
        lemma_unit_times_recip(d, s);
    }
}

/// Transposing twice gives the matrix back.
pub proof fn lemma_transpose_involution(m: [[i32; 4]; 4], t: [[i32; 4]; 4], tt: [[i32; 4]; 4])
    requires
        is_transpose4(t, m),
        is_transpose4(tt, t),
    ensures
        forall|i: int, j: int| 0 <= i < 4 && 0 <= j < 4 ==> tt[i][j] == m[i][j],
{
    assert forall|i: int, j: int| 0 <= i < 4 && 0 <= j < 4 implies tt[i][j] == m[i][j] by {
        if i == 0 { if j == 0 {} else if j == 1 {} else if j == 2 {} else {} }
        else if i == 1 { if j == 0 {} else if j == 1 {} else if j == 2 {} else {} }
        else if i == 2 { if j == 0 {} else if j == 1 {} else if j == 2 {} else {} }
        else { if j == 0 {} else if j == 1 {} else if j == 2 {} else {} }
    }
}

/// Coordinate `c` of the point `(x, y, z)` transformed by `m` (`w = 1`,
/// translation applied), as `transform_point` computes it.
pub open spec fn point_image(m: [[i32; 4]; 4], x: int, y: int, z: int, c: int) -> int {
    x * m[0][c] + y * m[1][c] + z * m[2][c] + m[3][c]
}

proof fn lemma_scale3(x: int, a: int, b: int, c: int)
    by (nonlinear_arith)
    ensures
        x * (a + b + c) == x * a + x * b + x * c,
{
}

proof fn lemma_mul_assoc(x: int, p: int, s: int)
    by (nonlinear_arith)
    ensures
        x * (p * s) == (x * p) * s,
{
}

proof fn lemma_scale_sum(x: int, p: int, q: int, r: int, s: int, t: int, u: int)
    ensures
        x * (p * s + q * t + r * u) == (x * p) * s + (x * q) * t + (x * r) * u,
{
    lemma_scale3(x, p * s, q * t, r * u);
    lemma_mul_assoc(x, p, s);
    lemma_mul_assoc(x, q, t);
    lemma_mul_assoc(x, r, u);
}

proof fn lemma_sum_times(p: int, q: int, r: int, w: int, s: int)
    by (nonlinear_arith)
    ensures
        (p + q + r + w) * s == p * s + q * s + r * s + w * s,
{
}

/// Transforming a point by the product `a · b` of an affine `a` (last
/// column `0, 0, 0, 1`) with any `b` is transforming it by `a`, then by `b`.
pub proof fn lemma_transform_point_product(a: [[i32; 4]; 4], b: [[i32; 4]; 4], p: [[i32; 4]; 4], x: int, y: int, z: int)
    requires
        is_product4(p, a, b),
        a[0][3] == 0,
        a[1][3] == 0,
        a[2][3] == 0,
        a[3][3] == 1,
    ensures
        forall|c: int| 0 <= c < 3 ==> #[trigger] point_image(p, x, y, z, c) == point_image(b,
            point_image(a, x, y, z, 0), point_image(a, x, y, z, 1), point_image(a, x, y, z, 2), c),
{
    assert forall|c: int| 0 <= c < 3 implies #[trigger] point_image(p, x, y, z, c) == point_image(b,
        point_image(a, x, y, z, 0), point_image(a, x, y, z, 1), point_image(a, x, y, z, 2), c) by {
        assert(p[0][c] == entry4(a, b, 0, c) && p[1][c] == entry4(a, b, 1, c)
            && p[2][c] == entry4(a, b, 2, c) && p[3][c] == entry4(a, b, 3, c)) by {
            if c == 0 {} else if c == 1 {} else {}
        }
        let (b0, b1, b2, b3) = (b[0][c] as int, b[1][c] as int, b[2][c] as int, b[3][c] as int);
        lemma_scale_sum(x, a[0][0] as int, a[0][1] as int, a[0][2] as int, b0, b1, b2);
        lemma_scale_sum(y, a[1][0] as int, a[1][1] as int, a[1][2] as int, b0, b1, b2);
        lemma_scale_sum(z, a[2][0] as int, a[2][1] as int, a[2][2] as int, b0, b1, b2);
        lemma_sum_times(x * a[0][0], y * a[1][0], z * a[2][0], a[3][0] as int, b0);
        lemma_sum_times(x * a[0][1], y * a[1][1], z * a[2][1], a[3][1] as int, b1);
        lemma_sum_times(x * a[0][2], y * a[1][2], z * a[2][2], a[3][2] as int, b2);
        assert(a[0][3] * b3 == 0 && a[1][3] * b3 == 0 && a[2][3] * b3 == 0 && a[3][3] * b3 == b3);
    }
}

} // verus!
