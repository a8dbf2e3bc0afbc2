use xengine::math::aabb::AABB;
use xengine::math::matrix::{transform_point, transform_vec3, Matrix3, Matrix4};
use xengine::math::quaternion::Quaternion;
use xengine::math::scalar::IntNum;
use xengine::math::vector::{Vector2I, Vector3I, Vector4I};

#[test]
fn integer_variant_supports_component_ops() {
    let a = Vector3I::new(1, 2, 3);
    let b = Vector3I::new(4, 5, 6);
    assert_eq!(a + b, Vector3I::new(5, 7, 9));
    assert_eq!(a.dot(&b), 32);
    assert_eq!(a.cross(&b), Vector3I::new(-3, 6, -3));
    assert_eq!(a.length_sqr(), 14);
}

#[test]
fn vector_sub_neg_splat_lerp() {
    let a = Vector3I::new(1, 2, 3);
    let b = Vector3I::new(4, 5, 6);
    assert_eq!(b - a, Vector3I::splat(3));
    assert_eq!(-a, Vector3I::new(-1, -2, -3));
    assert_eq!(a.lerp(&b, 0), a);
    assert_eq!(a.lerp(&b, 1), b);
    assert_eq!(a.lerp(&b, 2), Vector3I::new(7, 8, 9));
    // Cross is anti-commutative and orthogonal to both inputs.
    assert_eq!(b.cross(&a), -a.cross(&b));
    assert_eq!(a.cross(&b).dot(&a), 0);
}

#[test]
fn vector2_and_vector4_integer_ops() {
    let p = Vector2I::new(1, 2);
    let perp = p.perpendicular();
    assert_eq!(perp, Vector2I::new(-2, 1));
    assert_eq!(p.dot(&perp), 0);
    assert_eq!(p.length_sqr(), 5);
    assert_eq!(Vector2I::splat(4), Vector2I::new(4, 4));
    let v = Vector4I::new(1, 2, 3, 4);
    assert_eq!(v.dot(&Vector4I::new(4, 3, 2, 1)), 20);
    assert_eq!(v.length_sqr(), 30);
    assert_eq!(Vector4I::splat(0), Vector4I::new(0, 0, 0, 0));
}

#[test]
fn aabb_union_intersect_contain() {
    let a = AABB::new(Vector3I::new(0, 0, 0), Vector3I::new(2, 2, 2));
    let b = AABB::from_min_max(Vector3I::new(1, 1, 1), Vector3I::new(3, 3, 3));
    let c = AABB::new(Vector3I::new(5, 5, 5), Vector3I::new(6, 6, 6));
    assert!(a.intersects(&b));
    assert!(!a.intersects(&c));
    let u = a.union(&c);
    assert_eq!(u.min, Vector3I::new(0, 0, 0));
    assert_eq!(u.max, Vector3I::new(6, 6, 6));
    assert!(u.contains(Vector3I::new(3, 4, 5)));
    assert!(a.contains(Vector3I::new(2, 2, 2)));
    assert!(!a.contains(Vector3I::new(3, 0, 0)));
}

#[test]
fn degenerate_aabb_is_empty() {
    let d = AABB::new(Vector3I::new(1, 0, 0), Vector3I::new(0, 1, 1));
    let a = AABB::new(Vector3I::new(-5, -5, -5), Vector3I::new(5, 5, 5));
    assert!(d.is_empty());
    assert!(!a.is_empty());
    assert!(!d.intersects(&a));
    assert!(!a.intersects(&d));
    assert!(!d.contains(Vector3I::new(0, 0, 0)));
}

fn translation(x: i32, y: i32, z: i32) -> Matrix4<i32> {
    Matrix4::new([[1, 0, 0, 0], [0, 1, 0, 0], [0, 0, 1, 0], [x, y, z, 1]])
}

#[test]
fn row_vector_applies_a_then_b() {
    let a = translation(1, 0, 0);
    let b = Matrix4::new([[2, 0, 0, 0], [0, 2, 0, 0], [0, 0, 2, 0], [0, 0, 0, 1]]);
    let ab = a.mul(&b);
    // v · (A · B): translate first, then scale.
    assert_eq!(ab.transform_point(Vector3I::new(1, 1, 1)), Vector3I::new(4, 2, 2));
    assert_eq!(transform_point(Vector3I::new(1, 1, 1), &ab), Vector3I::new(4, 2, 2));
}

#[test]
fn translation_applies_to_points_not_directions() {
    let t = translation(5, 6, 7);
    assert_eq!(t.mul_vec3(Vector3I::new(1, 2, 3)), Vector3I::new(6, 8, 10));
    assert_eq!(t.transform_vec3(Vector3I::new(1, 2, 3)), Vector3I::new(1, 2, 3));
    assert_eq!(transform_vec3(Vector3I::new(1, 2, 3), &t), Vector3I::new(1, 2, 3));
    assert_eq!(t.mul_vec4(Vector4I::new(1, 2, 3, 0)), Vector4I::new(1, 2, 3, 0));
    assert_eq!(t.mul_vec4(Vector4I::new(1, 2, 3, 1)), Vector4I::new(6, 8, 10, 1));
}

#[test]
fn col_major_roundtrip_and_transpose() {
    let mut m = [[0i32; 4]; 4];
    for (r, row) in m.iter_mut().enumerate() {
        for (c, x) in row.iter_mut().enumerate() {
            *x = (r * 4 + c) as i32;
        }
    }
    let m = Matrix4::new(m);
    let flat = m.to_col_major();
    assert_eq!(flat[1], 4);
    assert_eq!(flat[4], 1);
    assert_eq!(Matrix4::from_col_major(&flat), m);
    assert_eq!(m.transpose().transpose(), m);
    assert_eq!(m.transpose().m[0][3], 12);
}

#[test]
fn determinants() {
    let id = Matrix4::new([[1, 0, 0, 0], [0, 1, 0, 0], [0, 0, 1, 0], [0, 0, 0, 1]]);
    assert_eq!(id.determinant(), 1);
    let s = Matrix4::new([[2, 0, 0, 0], [0, 3, 0, 0], [0, 0, 4, 0], [7, 8, 9, 1]]);
    assert_eq!(s.determinant(), 24);
    let m3 = Matrix3::new([[2, 0, 1], [1, 3, 2], [1, 1, 1]]);
    assert_eq!(m3.determinant(), 2 * (3 - 2) - 0 + 1 * (1 - 3));
    assert_eq!(m3.transpose().determinant(), m3.determinant());
}

#[test]
fn matrix3_operations() {
    let a = Matrix3::new([[1, 2, 3], [4, 5, 6], [7, 8, 9]]);
    let id = Matrix3::new([[1, 0, 0], [0, 1, 0], [0, 0, 1]]);
    assert_eq!(a.mul(&id), a);
    assert_eq!(id.mul(&a), a);
    assert_eq!(a.mul_vec3(Vector3I::new(1, 0, 0)), Vector3I::new(1, 2, 3));
    assert_eq!(a.transpose().m[0], [1, 4, 7]);
    let m4 = a.to_mat4();
    assert_eq!(m4.m[3], [0, 0, 0, 1]);
    assert_eq!(m4.m[0], [1, 2, 3, 0]);
    assert_eq!(Matrix3::from_mat4(&m4), a);
}

#[test]
fn quaternion_conjugate_and_mul() {
    let q = Quaternion::new(1, 2, 3, 4);
    let c = q.conjugate();
    assert_eq!(c, Quaternion::new(-1, -2, -3, 4));
    assert_eq!(c.conjugate(), q);
    // q · q* = |q|² (pure real).
    assert_eq!(q.mul(&c), Quaternion::new(0, 0, 0, 30));
    assert_eq!(q.length_sqr(), 30);
    assert_eq!(q.dot(&Quaternion::identity()), 4);
    assert_eq!(Quaternion::identity().mul(&q), q);
    assert_eq!(q.mul(&Quaternion::identity()), q);
    assert_eq!(q.xyz(), Vector3I::new(1, 2, 3));
    // i · j = k
    let i = Quaternion::new(1, 0, 0, 0);
    let j = Quaternion::new(0, 1, 0, 0);
    assert_eq!(i.mul(&j), Quaternion::new(0, 0, 1, 0));
}

#[test]
fn unimodular_matrices_invert_exactly() {
    let t = translation(5, 6, 7);
    let inv = t.inverse().unwrap();
    assert_eq!(inv, translation(-5, -6, -7));
    let id = translation(0, 0, 0);
    assert_eq!(t.mul(&inv), id);
    assert_eq!(inv.mul(&t), id);
    let shear = Matrix3::new([[1, 2, 0], [0, 1, 0], [0, 0, 1]]);
    assert_eq!(
        shear.inverse().unwrap(),
        Matrix3::new([[1, -2, 0], [0, 1, 0], [0, 0, 1]])
    );
}

#[test]
fn integer_inverse_of_non_unit_determinant_truncates_to_zero() {
    let s = Matrix4::new([[2, 0, 0, 0], [0, 2, 0, 0], [0, 0, 2, 0], [0, 0, 0, 1]]);
    assert_eq!(s.inverse().unwrap(), Matrix4::new([[0; 4]; 4]));
    let s3 = Matrix3::new([[2, 0, 0], [0, 1, 0], [0, 0, 1]]);
    assert_eq!(s3.inverse().unwrap(), Matrix3::new([[0; 3]; 3]));
}

#[test]
fn singular_matrices_have_no_inverse() {
    let m = Matrix4::new([[1, 2, 3, 4], [2, 4, 6, 8], [0, 0, 1, 0], [0, 0, 0, 1]]);
    assert_eq!(m.determinant(), 0);
    assert!(m.inverse().is_none());
    let m3 = Matrix3::new([[2, 0, 1], [1, 3, 2], [1, 1, 1]]);
    assert!(m3.inverse().is_none());
}

#[test]
fn vector_scaling_and_lerp_for_every_width() {
    let a = Vector3I::new(1, -2, 3);
    assert_eq!(a * 3, Vector3I::new(3, -6, 9));
    assert_eq!(a * Vector3I::new(2, 2, -1), Vector3I::new(2, -4, -3));
    let p = Vector2I::new(0, 10);
    assert_eq!(p.lerp(&Vector2I::new(4, 20), 2), Vector2I::new(8, 30));
    let v = Vector4I::new(1, 1, 1, 1);
    assert_eq!(v.lerp(&Vector4I::new(2, 3, 4, 5), 1), Vector4I::new(2, 3, 4, 5));
    assert_eq!(v.lerp(&Vector4I::new(2, 3, 4, 5), 0), v);
}

#[test]
fn quaternion_operators() {
    let q = Quaternion::new(1, 2, 3, 4);
    let r = Quaternion::new(0, 1, 0, 1);
    assert_eq!(q + r, Quaternion::new(1, 3, 3, 5));
    assert_eq!(-q, Quaternion::new(-1, -2, -3, -4));
    assert_eq!(q * 2, Quaternion::new(2, 4, 6, 8));
    assert_eq!(q * r, q.mul(&r));
    assert_eq!(Quaternion::new(1, 0, 0, 0) * Quaternion::new(0, 1, 0, 0), Quaternion::new(0, 0, 1, 0));
}

fn only_integers<T: IntNum>(_: T) -> bool {
    true
}

#[test]
fn integer_component_kinds() {
    assert!(only_integers(3i32));
    assert!(only_integers(3i64));
}

#[test]
fn union_is_the_smallest_enclosing_box() {
    let a = AABB::new(Vector3I::new(0, 0, 0), Vector3I::new(1, 1, 1));
    let b = AABB::new(Vector3I::new(5, -2, 0), Vector3I::new(6, 0, 2));
    let u = a.union(&b);
    for p in [a.min, a.max, b.min, b.max] {
        assert!(u.contains(p));
    }
    // Shrinking any face loses a corner of a or b.
    assert!(!AABB::new(Vector3I::new(1, -2, 0), u.max).contains(a.min));
    assert!(!AABB::new(u.min, Vector3I::new(5, 1, 2)).contains(b.max));
}

#[test]
fn negative_unit_determinant_inverts_exactly() {
    let m3 = Matrix3::new([[2, 3, 0], [1, 1, 0], [0, 0, 1]]);
    assert_eq!(m3.determinant(), -1);
    let inv3 = m3.inverse().unwrap();
    assert_eq!(inv3, Matrix3::new([[-1, 3, 0], [1, -2, 0], [0, 0, 1]]));
    assert_eq!(m3.mul(&inv3), Matrix3::new([[1, 0, 0], [0, 1, 0], [0, 0, 1]]));
    let m4 = Matrix4::new([[2, 3, 0, 0], [1, 1, 0, 0], [0, 0, 1, 0], [0, 0, 0, 1]]);
    assert_eq!(m4.determinant(), -1);
    let inv4 = m4.inverse().unwrap();
    assert_eq!(m4.mul(&inv4), Matrix4::new([[1, 0, 0, 0], [0, 1, 0, 0], [0, 0, 1, 0], [0, 0, 0, 1]]));
    assert_eq!(inv4.mul(&m4), Matrix4::new([[1, 0, 0, 0], [0, 1, 0, 0], [0, 0, 1, 0], [0, 0, 0, 1]]));
}

#[test]
fn quaternion_times_conjugate_is_squared_length() {
    let q = Quaternion::new(1, 2, 3, 4);
    let c = q.conjugate();
    assert_eq!(q.mul(&c), Quaternion::new(0, 0, 0, 30));
    assert_eq!(c.mul(&q), Quaternion::new(0, 0, 0, q.length_sqr()));
    let unit = Quaternion::new(0, -1, 0, 0);
    assert_eq!(unit.mul(&unit.conjugate()), Quaternion::identity());
}

#[test]
fn union_with_an_empty_box_is_the_other_box() {
    let a = AABB::from_min_max(Vector3I::new(0, 0, 0), Vector3I::new(1, 1, 1));
    let empty = AABB::from_min_max(Vector3I::new(1, 0, 0), Vector3I::new(0, 1, 1));
    assert!(empty.is_empty());
    let u = a.union(&empty);
    assert_eq!(u.min, Vector3I::new(0, 0, 0));
    assert_eq!(u.max, Vector3I::new(1, 1, 1));
    let far_empty = AABB::from_min_max(Vector3I::new(5, 5, 5), Vector3I::new(4, 4, 4));
    assert_eq!(far_empty.union(&a), a);
    assert_eq!(a.union(&far_empty), a);
}

#[test]
fn product_transform_is_a_then_b_for_affine_a() {
    let a = Matrix4::new([[0, 1, 0, 0], [-1, 0, 0, 0], [0, 0, 3, 0], [2, -5, 7, 1]]);
    let b = Matrix4::new([[1, 2, 3, 4], [0, -1, 5, 2], [6, 0, 1, -3], [-2, 4, 9, 8]]);
    let v = Vector3I::new(3, -4, 2);
    let ab = a.mul(&b);
    assert_eq!(ab.transform_point(v), b.transform_point(a.transform_point(v)));
}
