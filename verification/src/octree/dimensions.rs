//! Boxes of points given by two corners.
use vstd::prelude::*;
use crate::point::Point3;

verus! {

/// The box of points between two corners.
#[derive(Debug, Eq, PartialEq, Clone, Copy)]
pub struct Cuboid<N> {
    pub bottom_left: Point3<N>,
    pub top_right: Point3<N>,
}

/// Iteration state over a [Cuboid], starting at its bottom left corner.
pub struct CuboidIter<N> {
    pub bounds: Cuboid<N>,
    pub curr: Point3<N>,
}

impl Cuboid<u16> {
    /// The box from `bottom_left` moved in by one along every axis (to
    /// account for blocks) to `top_right`.
    pub fn new(bottom_left: Point3<u16>, top_right: Point3<u16>) -> (r: Self)
        requires
            bottom_left.x < u16::MAX,
            bottom_left.y < u16::MAX,
            bottom_left.z < u16::MAX,
        ensures
            r.bottom_left.x == bottom_left.x + 1,
            r.bottom_left.y == bottom_left.y + 1,
            r.bottom_left.z == bottom_left.z + 1,
            r.top_right == top_right,
    {
        Cuboid {
            bottom_left: Point3::new(bottom_left.x + 1, bottom_left.y + 1, bottom_left.z + 1),
            top_right,
        }
    }

    /// Starts iterating at the bottom left corner.
    pub fn into_iter(self) -> (r: CuboidIter<u16>)
        ensures
            r.bounds == self,
            r.curr == self.bottom_left,
    {
        CuboidIter { curr: self.bottom_left, bounds: self }
    }
}

} // verus!
