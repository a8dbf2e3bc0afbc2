//! Scalar component kinds.
use vstd::prelude::*;

verus! {

/// Marker for the integer component types (`i32`, `i64`): they support the
/// component and layout operations, not the floating-point ones.
pub trait IntNum {
}

impl IntNum for i32 {
}

impl IntNum for i64 {
}

} // verus!
