use vstd::prelude::*;

verus! {

/// A point in three dimensional space with coordinates of type `N`.
#[derive(Clone, Copy, PartialEq, Eq, Structural, Debug, Hash, PartialOrd, Ord)]
pub struct Point3<N> {
    pub x: N,
    pub y: N,
    pub z: N,
}

impl<N> Point3<N> {
    pub fn new(x: N, y: N, z: N) -> (r: Self)
        ensures
            r.x == x,
            r.y == y,
            r.z == z,
    {
        Point3 { x, y, z }
    }
}

impl Point3<u16> {
    /// The point `(0, 0, 0)`.
    pub fn origin() -> (r: Self)
        ensures
            r == (Point3::<u16> { x: 0, y: 0, z: 0 }),
    {
        Point3 { x: 0, y: 0, z: 0 }
    }
}

impl Point3<i32> {
    /// The point `(0, 0, 0)`.
    pub fn origin_i32() -> (r: Self)
        ensures
            r == (Point3::<i32> { x: 0, y: 0, z: 0 }),
    {
        Point3 { x: 0, y: 0, z: 0 }
    }
}

} // verus!
