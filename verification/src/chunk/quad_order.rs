//! The order of quads of one face and block: by their place in the plane,
//! then larger first.
use vstd::prelude::*;
use std::cmp::Ordering;
use crate::chunk::mesher::{Quad, first_coord, second_coord};

verus! {

/// The order of two integers.
pub open spec fn order_of(a: int, b: int) -> Ordering {
    if a < b {
        Ordering::Less
    } else if a == b {
        Ordering::Equal
    } else {
        Ordering::Greater
    }
}

/// `first`, unless it is `Equal`; then `second`.
pub open spec fn then_order(first: Ordering, second: Ordering) -> Ordering {
    match first {
        Ordering::Equal => second,
        _ => first,
    }
}

/// The width and height of the quad fit an `i32`.
pub open spec fn measurable(q: Quad) -> bool {
    &&& i32::MIN <= first_coord(q.face, q.top_right) - first_coord(q.face, q.bottom_left) <= i32::MAX
    &&& i32::MIN <= second_coord(q.face, q.top_right) - second_coord(q.face, q.bottom_left) <= i32::MAX
}

/// An `i32` as an integer.
pub open spec fn widen(a: i32) -> int {
    a as int
}

/// The quad's first coordinate in its plane.
pub open spec fn quad_u(q: Quad) -> int {
    first_coord(q.face, q.bottom_left) as int
}

/// The quad's second coordinate in its plane.
pub open spec fn quad_v(q: Quad) -> int {
    second_coord(q.face, q.bottom_left) as int
}

/// The quad's extent along its first coordinate.
pub open spec fn quad_w(q: Quad) -> int {
    first_coord(q.face, q.top_right) - first_coord(q.face, q.bottom_left)
}

/// The quad's extent along its second coordinate.
pub open spec fn quad_h(q: Quad) -> int {
    second_coord(q.face, q.top_right) - second_coord(q.face, q.bottom_left)
}

/// Quads ordered by their second coordinate, then their first, then wider
/// first, then higher first.
pub open spec fn quad_order(a: Quad, b: Quad) -> Ordering {
    then_order(
        order_of(quad_v(a), quad_v(b)),
        then_order(
            order_of(quad_u(a), quad_u(b)),
            then_order(order_of(quad_w(b), quad_w(a)), order_of(quad_h(b), quad_h(a))),
        ),
    )
}

fn compare_i32(a: i32, b: i32) -> (r: Ordering)
    ensures
        r == order_of(widen(a), widen(b)),
{
    if a < b {
        Ordering::Less
    } else if a == b {
        Ordering::Equal
    } else {
        Ordering::Greater
    }
}

impl Quad {
    /// The order of two quads, as [quad_order].
    pub fn compare(&self, other: &Quad) -> (r: Ordering)
        requires
            measurable(*self),
            measurable(*other),
        ensures
            r == quad_order(*self, *other),
    {
        let by_v = compare_i32(self.v(), other.v());
        let by_u = compare_i32(self.u(), other.u());
        let by_w = compare_i32(other.width(), self.width());
        let by_h = compare_i32(other.height(), self.height());
        match by_v {
            Ordering::Equal => match by_u {
                Ordering::Equal => match by_w {
                    Ordering::Equal => by_h,
                    _ => by_w,
                },
                _ => by_u,
            },
            _ => by_v,
        }
    }

    /// The order of two quads of the same face and block, as
    /// [quad_order]; none for quads of different faces or blocks.
    pub fn partial_compare(&self, other: &Quad) -> (r: Option<Ordering>)
        requires
            measurable(*self),
            measurable(*other),
        ensures
            r == if self.face != other.face || self.block != other.block {
                None
            } else {
                Some(quad_order(*self, *other))
            },
    {
        if self.face != other.face || self.block != other.block {
            None
        } else {
            Some(self.compare(other))
        }
    }
}

} // verus!
