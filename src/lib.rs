//! Exact planar orientation predicates, angular ordering around a pivot,
//! symbolic tie-breaking and the convex hull of a point set, over `i64`
//! coordinates and without arithmetic overflow for any representable input.
use vstd::prelude::*;

pub mod orientation;
pub mod vector;
mod sort;
pub mod convex_hull;

pub use orientation::{cmp_perp_vector_slope, cmp_slope, cmp_vector_slope, Orientation, SoS};
pub use vector::{Point, Vector};
pub use convex_hull::{convex_hull, ConvexPolygon};

verus! {

/// Failures of polygon construction.
#[derive(Debug, Clone, Copy, PartialEq, Eq, Structural)]
pub enum Error {
    /// No point was supplied, so no pivot could be chosen.
    InsufficientInput,
    InsufficientVertices,
    SelfIntersections,
    DuplicatePoints,
    /// Two consecutive line segments are either colinear or oriented clockwise.
    ConvexViolation,
    ClockWiseViolation,
}

} // verus!
