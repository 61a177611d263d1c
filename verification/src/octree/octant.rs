use vstd::prelude::*;
use crate::point::Point3;

verus! {

pub use crate::octree::octant_face::OctantFace;

/// Each of the eight octants of a cube, named by whether it lies in the high
/// or the low half along x, y and z (in that order).
#[derive(PartialEq, Clone, Eq, Structural, Copy, Debug)]
pub enum OctantId {
    HighHighHigh,
    HighHighLow,
    HighLowHigh,
    HighLowLow,
    LowHighHigh,
    LowHighLow,
    LowLowHigh,
    LowLowLow,
}

/// Whether the octant with number `i` lies in the high half along x.
pub open spec fn index_x_high(i: int) -> bool {
    i >= 4
}

/// Whether the octant with number `i` lies in the high half along y.
pub open spec fn index_y_high(i: int) -> bool {
    i % 4 >= 2
}

/// Whether the octant with number `i` lies in the high half along z.
pub open spec fn index_z_high(i: int) -> bool {
    i % 2 == 1
}

/// The number of the octant that has the given halves: 4 for high x, 2 for
/// high y and 1 for high z, summed.
pub open spec fn octant_number(x_high: bool, y_high: bool, z_high: bool) -> int {
    (if x_high { 4int } else { 0int }) + (if y_high { 2int } else { 0int }) + (if z_high {
        1int
    } else {
        0int
    })
}

impl OctantId {
    /// The number of the octant: `LowLowLow` is 0 and `HighHighHigh` is 7.
    pub open spec fn spec_index(self) -> nat {
        match self {
            OctantId::HighHighHigh => 7,
            OctantId::HighHighLow => 6,
            OctantId::HighLowHigh => 5,
            OctantId::HighLowLow => 4,
            OctantId::LowHighHigh => 3,
            OctantId::LowHighLow => 2,
            OctantId::LowLowHigh => 1,
            OctantId::LowLowLow => 0,
        }
    }

    pub open spec fn spec_from_index(i: int) -> OctantId {
        if i == 7 {
            OctantId::HighHighHigh
        } else if i == 6 {
            OctantId::HighHighLow
        } else if i == 5 {
            OctantId::HighLowHigh
        } else if i == 4 {
            OctantId::HighLowLow
        } else if i == 3 {
            OctantId::LowHighHigh
        } else if i == 2 {
            OctantId::LowHighLow
        } else if i == 1 {
            OctantId::LowLowHigh
        } else {
            OctantId::LowLowLow
        }
    }

    pub fn to_usize(&self) -> (r: usize)
        ensures
            r == self.spec_index(),
            r < 8,
    {
        match self {
            OctantId::HighHighHigh => 7,
            OctantId::HighHighLow => 6,
            OctantId::HighLowHigh => 5,
            OctantId::HighLowLow => 4,
            OctantId::LowHighHigh => 3,
            OctantId::LowHighLow => 2,
            OctantId::LowLowHigh => 1,
            OctantId::LowLowLow => 0,
        }
    }

    /// The octant with number `n`, if `n < 8`.
    pub fn from_u8(n: u8) -> (r: Option<OctantId>)
        ensures
            n < 8 <==> r is Some,
            r matches Some(o) ==> o.spec_index() == n && o == OctantId::spec_from_index(n as int),
    {
        match n {
            0 => Some(OctantId::LowLowLow),
            1 => Some(OctantId::LowLowHigh),
            2 => Some(OctantId::LowHighLow),
            3 => Some(OctantId::LowHighHigh),
            4 => Some(OctantId::HighLowLow),
            5 => Some(OctantId::HighLowHigh),
            6 => Some(OctantId::HighHighLow),
            7 => Some(OctantId::HighHighHigh),
            _ => None,
        }
    }

    pub fn is_x_high(&self) -> (r: bool)
        ensures
            r == index_x_high(self.spec_index() as int),
    {
        match self {
            OctantId::HighHighHigh | OctantId::HighHighLow | OctantId::HighLowHigh
            | OctantId::HighLowLow => true,
            _ => false,
        }
    }

    pub fn is_y_high(&self) -> (r: bool)
        ensures
            r == index_y_high(self.spec_index() as int),
    {
        match self {
            OctantId::HighHighHigh | OctantId::HighHighLow | OctantId::LowHighHigh
            | OctantId::LowHighLow => true,
            _ => false,
        }
    }

    pub fn is_z_high(&self) -> (r: bool)
        ensures
            r == index_z_high(self.spec_index() as int),
    {
        match self {
            OctantId::HighHighHigh | OctantId::HighLowHigh | OctantId::LowHighHigh
            | OctantId::LowLowHigh => true,
            _ => false,
        }
    }

    /// The bottom left corner of this sub octant, inside a containing octant
    /// whose bottom left corner is given, where each sub octant has the given
    /// diameter: the containing corner moved by the diameter along each axis on
    /// which this octant is high.
    pub fn sub_octant_bottom_left(
        &self,
        containing_bottom_left: Point3<u16>,
        sub_octant_diameter: usize,
    ) -> (r: Point3<u16>)
        requires
            sub_octant_diameter <= u16::MAX,
            index_x_high(self.spec_index() as int) ==> containing_bottom_left.x
                + sub_octant_diameter <= u16::MAX,
            index_y_high(self.spec_index() as int) ==> containing_bottom_left.y
                + sub_octant_diameter <= u16::MAX,
            index_z_high(self.spec_index() as int) ==> containing_bottom_left.z
                + sub_octant_diameter <= u16::MAX,
        ensures
            r == sub_bottom_left(containing_bottom_left, sub_octant_diameter as int, self.spec_index() as int),
    {
        let diameter = sub_octant_diameter as u16;
        let x = if self.is_x_high() {
            containing_bottom_left.x + diameter
        } else {
            containing_bottom_left.x
        };
        let y = if self.is_y_high() {
            containing_bottom_left.y + diameter
        } else {
            containing_bottom_left.y
        };
        let z = if self.is_z_high() {
            containing_bottom_left.z + diameter
        } else {
            containing_bottom_left.z
        };
        Point3::new(x, y, z)
    }

    /// Iterates over all variants of OctantId, from `LowLowLow` to `HighHighHigh`.
    pub fn iter() -> (r: OctantIdIter)
        ensures
            r.indx == 0,
    {
        OctantIdIter::default()
    }
}

/// The bottom left corner of the sub octant with number `i` of a cube whose
/// bottom left corner is `bl`, where sub octants have diameter `d`.
pub open spec fn sub_bottom_left(bl: Point3<u16>, d: int, i: int) -> Point3<u16> {
    Point3 {
        x: (if index_x_high(i) { bl.x + d } else { bl.x as int }) as u16,
        y: (if index_y_high(i) { bl.y + d } else { bl.y as int }) as u16,
        z: (if index_z_high(i) { bl.z + d } else { bl.z as int }) as u16,
    }
}

/// Iterator over the variants of [OctantId], in the order of their numbers.
pub struct OctantIdIter {
    pub indx: u8,
}

impl Default for OctantIdIter {
    fn default() -> (r: Self)
        ensures
            r.indx == 0,
    {
        OctantIdIter { indx: 0 }
    }
}

impl OctantIdIter {
    /// The octant numbered by the current index, if any; the index moves on by one.
    pub fn next(&mut self) -> (r: Option<OctantId>)
        requires
            old(self).indx < u8::MAX,
        ensures
            final(self).indx == old(self).indx + 1,
            old(self).indx < 8 <==> r is Some,
            r matches Some(o) ==> o.spec_index() == old(self).indx,
    {
        let octant = OctantId::from_u8(self.indx);
        self.indx = self.indx + 1;
        octant
    }
}

/// A leaf of an octree: its data, its bottom left front corner and its diameter.
#[derive(Hash, PartialEq, Eq, Debug, Clone, Copy)]
pub struct Octant<E, P> {
    pub data: E,
    pub bottom_left_front: P,
    pub diameter: usize,
}

impl<E, P> Octant<E, P> {
    pub fn new(data: E, bottom_left_front: P, diameter: usize) -> (r: Self)
        ensures
            r.data == data,
            r.bottom_left_front == bottom_left_front,
            r.diameter == diameter,
    {
        Octant { data, bottom_left_front, diameter }
    }
}

impl<E> Octant<E, Point3<u16>> {
    /// The corner opposite to the bottom left front one: each coordinate moved by the diameter.
    pub fn top_right(&self) -> (r: Point3<usize>)
        requires
            self.diameter + u16::MAX <= usize::MAX,
        ensures
            r.x == self.bottom_left_front.x + self.diameter,
            r.y == self.bottom_left_front.y + self.diameter,
            r.z == self.bottom_left_front.z + self.diameter,
    {
        Point3::new(
            self.bottom_left_front.x as usize + self.diameter,
            self.bottom_left_front.y as usize + self.diameter,
            self.bottom_left_front.z as usize + self.diameter,
        )
    }
}

} // verus!
