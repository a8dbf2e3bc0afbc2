//! Integer math primitives: vectors, boxes, matrices and quaternions over
//! `i32` components (component and layout operations), with the crate's
//! conventions: row-major matrices, row-vector × matrix transforms,
//! quaternion components `(x, y, z, w)` with `w` last.
pub mod aabb;
pub mod matrix;
pub mod quaternion;
pub mod scalar;
pub mod vector;
