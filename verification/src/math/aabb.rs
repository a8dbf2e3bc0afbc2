//! Generic axis-aligned bounding box primitive.
use vstd::prelude::*;

use super::vector::Vector3;

verus! {

/// An axis-aligned bounding box defined by its `min` and `max` corners.
///
/// A box with any `min > max` component is *degenerate* (empty); all queries
/// treat it as empty.
#[derive(Debug, Clone, Copy, PartialEq, Eq, Structural)]
pub struct AABB<T> {
    pub min: Vector3<T>,
    pub max: Vector3<T>,
}

/// The box is degenerate on some axis.
pub open spec fn empty_box(b: AABB<i32>) -> bool {
    b.min.x > b.max.x || b.min.y > b.max.y || b.min.z > b.max.z
}

/// The box contains the point, bounds included.
pub open spec fn box_holds(b: AABB<i32>, p: Vector3<i32>) -> bool {
    &&& b.min.x <= p.x <= b.max.x
    &&& b.min.y <= p.y <= b.max.y
    &&& b.min.z <= p.z <= b.max.z
}

/// The smaller of two values.
pub open spec fn lo(a: i32, b: i32) -> i32 {
    if a < b { a } else { b }
}

/// The larger of two values.
pub open spec fn hi(a: i32, b: i32) -> i32 {
    if a > b { a } else { b }
}

/// The component-wise hull: the smaller mins and the larger maxes.
pub open spec fn hull(a: AABB<i32>, b: AABB<i32>) -> AABB<i32> {
    AABB {
        min: Vector3 { x: lo(a.min.x, b.min.x), y: lo(a.min.y, b.min.y), z: lo(a.min.z, b.min.z) },
        max: Vector3 { x: hi(a.max.x, b.max.x), y: hi(a.max.y, b.max.y), z: hi(a.max.z, b.max.z) },
    }
}

/// The union of two boxes: an empty box adds nothing, so the union is the
/// other box; of two non-empty boxes it is their hull.
pub open spec fn union_box(a: AABB<i32>, b: AABB<i32>) -> AABB<i32> {
    if empty_box(b) {
        a
    } else if empty_box(a) {
        b
    } else {
        hull(a, b)
    }
}

impl AABB<i32> {
    /// Builds a box from its min and max corners.
    pub fn new(min: Vector3<i32>, max: Vector3<i32>) -> (b: Self)
        ensures
            b.min == min && b.max == max,
    {
        AABB { min, max }
    }

    /// Alias for [`new`](Self::new), matching the spec operation name.
    pub fn from_min_max(min: Vector3<i32>, max: Vector3<i32>) -> (b: Self)
        ensures
            b.min == min && b.max == max,
    {
        AABB { min, max }
    }

    /// Whether the box is degenerate (empty): any component has `min > max`.
    pub fn is_empty(&self) -> (r: bool)
        ensures
            r == empty_box(*self),
    {
        self.min.x > self.max.x || self.min.y > self.max.y || self.min.z > self.max.z
    }

    /// The union of two boxes. A union with an empty box is the other box;
    /// otherwise it is component-wise the smaller min and the larger max.
    pub fn union(&self, other: &Self) -> (r: Self)
        ensures
            r == union_box(*self, *other),
    {
        if other.is_empty() {
            return *self;
        }
        if self.is_empty() {
            return *other;
        }
        AABB::new(
            Vector3::new(
                if self.min.x < other.min.x { self.min.x } else { other.min.x },
                if self.min.y < other.min.y { self.min.y } else { other.min.y },
                if self.min.z < other.min.z { self.min.z } else { other.min.z },
            ),
            Vector3::new(
                if self.max.x > other.max.x { self.max.x } else { other.max.x },
                if self.max.y > other.max.y { self.max.y } else { other.max.y },
                if self.max.z > other.max.z { self.max.z } else { other.max.z },
            ),
        )
    }

    /// Whether this box and `other` overlap on every axis. Degenerate
    /// (empty) boxes never intersect.
    pub fn intersects(&self, other: &Self) -> (r: bool)
        ensures
            r == (!empty_box(*self) && !empty_box(*other)
                && self.min.x <= other.max.x && other.min.x <= self.max.x
                && self.min.y <= other.max.y && other.min.y <= self.max.y
                && self.min.z <= other.max.z && other.min.z <= self.max.z),
    {
        if self.is_empty() || other.is_empty() {
            return false;
        }
        self.min.x <= other.max.x && other.min.x <= self.max.x && self.min.y <= other.max.y
            && other.min.y <= self.max.y && self.min.z <= other.max.z && other.min.z <= self.max.z
    }

    /// Whether the box contains a point (inclusive). Degenerate (empty)
    /// boxes never contain a point.
    pub fn contains(&self, p: Vector3<i32>) -> (r: bool)
        ensures
            r == (!empty_box(*self) && box_holds(*self, p)),
    {
        if self.is_empty() {
            return false;
        }
        self.min.x <= p.x && p.x <= self.max.x && self.min.y <= p.y && p.y <= self.max.y && self.min.z <= p.z
            && p.z <= self.max.z
    }
}

/// The union of two boxes contains every point either contains, and is
/// then not empty.
pub proof fn lemma_union_covers(a: AABB<i32>, b: AABB<i32>, u: AABB<i32>, p: Vector3<i32>)
    requires
        u == union_box(a, b),
        box_holds(a, p) || box_holds(b, p),
    ensures
        box_holds(u, p),
        !empty_box(u),
{
}

/// Two boxes that both contain a point intersect.
pub proof fn lemma_common_point_intersects(a: AABB<i32>, b: AABB<i32>, p: Vector3<i32>)
    requires
        box_holds(a, p),
        box_holds(b, p),
    ensures
        !empty_box(a) && !empty_box(b),
        a.min.x <= b.max.x && b.min.x <= a.max.x,
        a.min.y <= b.max.y && b.min.y <= a.max.y,
        a.min.z <= b.max.z && b.min.z <= a.max.z,
{
}

/// The union is the smallest box containing both: any box that contains
/// every point of the two boxes contains every point of their union.
pub proof fn lemma_union_smallest(a: AABB<i32>, b: AABB<i32>, u: AABB<i32>, c: AABB<i32>, p: Vector3<i32>)
    requires
        u == union_box(a, b),
        forall|q: Vector3<i32>| box_holds(a, q) || box_holds(b, q) ==> #[trigger] box_holds(c, q),
        box_holds(u, p),
    ensures
        box_holds(c, p),
{
    if !empty_box(a) && !empty_box(b) {
        assert(box_holds(a, a.min) && box_holds(a, a.max));
        assert(box_holds(b, b.min) && box_holds(b, b.max));
        assert(box_holds(c, a.min) && box_holds(c, a.max));
        assert(box_holds(c, b.min) && box_holds(c, b.max));
    }
}

} // verus!
