use vstd::prelude::*;
use vstd::arithmetic::power2::{pow2, lemma_pow2_unfold, lemma_pow2_pos, lemma2_to64};
use crate::point::Point3;
use crate::octree::octant::{OctantId, octant_number, index_x_high, index_y_high, index_z_high, sub_bottom_left};
use crate::octree::octant_face::OctantFace;

verus! {

/// Alias for the coordinate type of octree positions.
pub type Number = u16;

/// An axis aligned cube given by its bottom left corner and its diameter.
///
/// The derived order compares the corner's x, then y, then z, then the diameter.
#[derive(Clone, Copy, PartialEq, Eq, Structural, Debug, Hash, PartialOrd, Ord)]
pub struct OctantDimensions {
    pub bottom_left: Point3<Number>,
    pub diameter: u16,
}

/// 2 to the power `h`, as a u16.
pub fn pow2_u16(h: u32) -> (r: u16)
    requires
        h < 16,
    ensures
        r == pow2(h as nat),
{
    let mut r: u16 = 1;
    let mut i: u32 = 0;
    proof {
        lemma2_to64();
    }
    while i < h
        invariant
            i <= h,
            h < 16,
            r == pow2(i as nat),
        decreases h - i,
    {
        proof {
            lemma_pow2_unfold((i + 1) as nat);
            lemma_pow2_monotone((i + 1) as nat, 15);
            lemma2_to64();
        }
        r = r * 2;
        i = i + 1;
    }
    r
}

/// 2 to a power grows with the power.
pub proof fn lemma_pow2_monotone(a: nat, b: nat)
    requires
        a <= b,
    ensures
        pow2(a) <= pow2(b),
    decreases b - a,
{
    if a < b {
        lemma_pow2_monotone(a, (b - 1) as nat);
        lemma_pow2_unfold(b);
        lemma_pow2_pos((b - 1) as nat);
    }
}

impl OctantDimensions {
    /// The cube has a positive diameter and lies inside the range of its coordinates.
    pub open spec fn valid(self) -> bool {
        &&& self.diameter >= 1
        &&& self.bottom_left.x + self.diameter <= u16::MAX + 1
        &&& self.bottom_left.y + self.diameter <= u16::MAX + 1
        &&& self.bottom_left.z + self.diameter <= u16::MAX + 1
    }

    /// Whether `p` lies inside the cube.
    pub open spec fn contains(self, p: Point3<Number>) -> bool {
        &&& self.bottom_left.x <= p.x < self.bottom_left.x + self.diameter
        &&& self.bottom_left.y <= p.y < self.bottom_left.y + self.diameter
        &&& self.bottom_left.z <= p.z < self.bottom_left.z + self.diameter
    }

    pub open spec fn radius(self) -> int {
        self.diameter as int / 2
    }

    /// The slot, in a branch, of the sub octant of the cube that `p` falls
    /// in. `p` is high along an axis when it is at least at the center; the
    /// slots count from the high corner: slot `7 - n` holds the octant that
    /// [OctantId] numbers `n`, so slot 0 is `HighHighHigh` and slot 7
    /// `LowLowLow`.
    pub open spec fn octant_index(self, p: Point3<Number>) -> int {
        7 - octant_number(
            p.x >= self.bottom_left.x + self.radius(),
            p.y >= self.bottom_left.y + self.radius(),
            p.z >= self.bottom_left.z + self.radius(),
        )
    }

    /// The cube of the sub octant in slot `i`: the octant numbered `7 - i`.
    pub open spec fn sub_dims(self, i: int) -> OctantDimensions {
        OctantDimensions {
            bottom_left: sub_bottom_left(self.bottom_left, self.radius(), 7 - i),
            diameter: self.radius() as u16,
        }
    }

    pub fn new(bottom_left: Point3<Number>, diameter: u16) -> (r: Self)
        ensures
            r.bottom_left == bottom_left,
            r.diameter == diameter,
    {
        OctantDimensions { bottom_left, diameter }
    }

    /// The point with each coordinate of `p` rounded down to a multiple of `2^height`.
    pub fn nearest_octant_point(p: Point3<Number>, height: u32) -> (r: Point3<Number>)
        requires
            height < 16,
        ensures
            r.x == (p.x as nat / pow2(height as nat)) * pow2(height as nat),
            r.y == (p.y as nat / pow2(height as nat)) * pow2(height as nat),
            r.z == (p.z as nat / pow2(height as nat)) * pow2(height as nat),
    {
        let multiple = pow2_u16(height);
        proof {
            lemma_pow2_pos(height as nat);
            lemma_round_down_fits(p.x as nat, multiple as nat);
            lemma_round_down_fits(p.y as nat, multiple as nat);
            lemma_round_down_fits(p.z as nat, multiple as nat);
        }
        Point3::new(
            (p.x / multiple) * multiple,
            (p.y / multiple) * multiple,
            (p.z / multiple) * multiple,
        )
    }

    pub fn x_min(&self) -> (r: Number)
        ensures
            r == self.bottom_left.x,
    {
        self.bottom_left.x
    }

    pub fn x_max(&self) -> (r: Number)
        requires
            self.valid(),
        ensures
            r == self.bottom_left.x + self.diameter - 1,
    {
        self.bottom_left.x + (self.diameter - 1)
    }

    pub fn y_min(&self) -> (r: Number)
        ensures
            r == self.bottom_left.y,
    {
        self.bottom_left.y
    }

    pub fn y_max(&self) -> (r: Number)
        requires
            self.valid(),
        ensures
            r == self.bottom_left.y + self.diameter - 1,
    {
        self.bottom_left.y + (self.diameter - 1)
    }

    pub fn z_min(&self) -> (r: Number)
        ensures
            r == self.bottom_left.z,
    {
        self.bottom_left.z
    }

    pub fn z_max(&self) -> (r: Number)
        requires
            self.valid(),
        ensures
            r == self.bottom_left.z + self.diameter - 1,
    {
        self.bottom_left.z + (self.diameter - 1)
    }

    /// The corner opposite to the bottom left one, still inside the cube.
    pub fn top_right(&self) -> (r: Point3<Number>)
        requires
            self.valid(),
        ensures
            r.x == self.bottom_left.x + self.diameter - 1,
            r.y == self.bottom_left.y + self.diameter - 1,
            r.z == self.bottom_left.z + self.diameter - 1,
    {
        let d = self.diameter - 1;
        Point3::new(self.bottom_left.x + d, self.bottom_left.y + d, self.bottom_left.z + d)
    }

    /// The bottom left corner moved by half the diameter (rounded down) along each axis.
    pub fn center(&self) -> (r: Point3<Number>)
        requires
            self.valid(),
        ensures
            r.x == self.bottom_left.x + self.radius(),
            r.y == self.bottom_left.y + self.radius(),
            r.z == self.bottom_left.z + self.radius(),
    {
        let radius = self.diameter / 2;
        Point3::new(
            self.bottom_left.x + radius,
            self.bottom_left.y + radius,
            self.bottom_left.z + radius,
        )
    }

    pub fn bottom_left(&self) -> (r: Point3<Number>)
        ensures
            r == self.bottom_left,
    {
        self.bottom_left
    }

    pub fn diameter(&self) -> (r: u16)
        ensures
            r == self.diameter,
    {
        self.diameter
    }

    /// The root point of the octant of the same size that touches the given face of this one.
    pub fn face_adjacent_point(&self, face: OctantFace) -> (r: Point3<Number>)
        requires
            self.valid(),
            face == OctantFace::Back ==> self.bottom_left.z + self.diameter <= u16::MAX,
            face == OctantFace::Up ==> self.bottom_left.y + self.diameter <= u16::MAX,
            face == OctantFace::Front ==> self.bottom_left.z >= 1,
            face == OctantFace::Down ==> self.bottom_left.y >= 1,
            face == OctantFace::Right ==> self.bottom_left.x + self.diameter <= u16::MAX,
            face == OctantFace::Left ==> self.bottom_left.x >= 1,
        ensures
            r == (match face {
                OctantFace::Back => Point3 { z: (self.bottom_left.z + self.diameter) as u16, ..self.bottom_left },
                OctantFace::Up => Point3 { y: (self.bottom_left.y + self.diameter) as u16, ..self.bottom_left },
                OctantFace::Front => Point3 { z: (self.bottom_left.z - 1) as u16, ..self.bottom_left },
                OctantFace::Down => Point3 { y: (self.bottom_left.y - 1) as u16, ..self.bottom_left },
                OctantFace::Right => Point3 { x: (self.bottom_left.x + self.diameter) as u16, ..self.bottom_left },
                OctantFace::Left => Point3 { x: (self.bottom_left.x - 1) as u16, ..self.bottom_left },
            }),
    {
        match face {
            OctantFace::Back => Point3::new(self.x_min(), self.y_min(), self.z_max() + 1),
            OctantFace::Up => Point3::new(self.x_min(), self.y_max() + 1, self.z_min()),
            OctantFace::Front => Point3::new(self.x_min(), self.y_min(), self.z_min() - 1),
            OctantFace::Down => Point3::new(self.x_min(), self.y_min() - 1, self.z_min()),
            OctantFace::Right => Point3::new(self.x_max() + 1, self.y_min(), self.z_min()),
            OctantFace::Left => Point3::new(self.x_min() - 1, self.y_min(), self.z_min()),
        }
    }

    /// The octant of the cube that `pos` falls in.
    pub fn get_octant(&self, pos: &Point3<Number>) -> (r: OctantId)
        requires
            self.valid(),
        ensures
            r.spec_index() == 7 - self.octant_index(*pos),
    {
        let center = self.center();
        match (pos.x >= center.x, pos.y >= center.y, pos.z >= center.z) {
            (true, true, true) => OctantId::HighHighHigh,
            (true, true, false) => OctantId::HighHighLow,
            (true, false, true) => OctantId::HighLowHigh,
            (true, false, false) => OctantId::HighLowLow,
            (false, true, true) => OctantId::LowHighHigh,
            (false, true, false) => OctantId::LowHighLow,
            (false, false, true) => OctantId::LowLowHigh,
            (false, false, false) => OctantId::LowLowLow,
        }
    }

    /// The slot, in a branch, of the sub octant that `pos` falls in.
    pub fn get_octant_index(&self, pos: &Point3<Number>) -> (r: usize)
        requires
            self.valid(),
        ensures
            r == self.octant_index(*pos),
            r < 8,
    {
        7 - self.get_octant(pos).to_usize()
    }

    /// The cube of the given sub octant, which a branch keeps in slot `7`
    /// minus its number.
    pub fn sub_octant_dimensions(&self, octant: OctantId) -> (r: OctantDimensions)
        requires
            self.valid(),
        ensures
            r == self.sub_dims(7 - octant.spec_index()),
    {
        let radius = self.diameter / 2;
        let bottom_left = octant.sub_octant_bottom_left(self.bottom_left, radius as usize);
        OctantDimensions { bottom_left, diameter: radius }
    }
}

/// Rounding down to a multiple of `m` stays within the value.
pub proof fn lemma_round_down_fits(v: nat, m: nat)
    requires
        m > 0,
    ensures
        (v / m) * m <= v,
{
    vstd::arithmetic::div_mod::lemma_fundamental_div_mod(v as int, m as int);
    vstd::arithmetic::div_mod::lemma_mod_pos_bound(v as int, m as int);
    vstd::arithmetic::mul::lemma_mul_is_commutative((v / m) as int, m as int);
}

/// A point inside a cube of even diameter lies inside the sub octant it falls in.
pub proof fn lemma_sub_octant_contains(d: OctantDimensions, p: Point3<Number>)
    requires
        d.valid(),
        d.diameter >= 2,
        d.diameter % 2 == 0,
        d.contains(p),
    ensures
        0 <= d.octant_index(p) < 8,
        d.sub_dims(d.octant_index(p)).contains(p),
        d.sub_dims(d.octant_index(p)).valid(),
{
}

/// Sub octants of a valid cube of even diameter are valid and lie inside it.
pub proof fn lemma_sub_dims_valid(d: OctantDimensions, i: int)
    requires
        d.valid(),
        d.diameter >= 2,
        d.diameter % 2 == 0,
        0 <= i < 8,
    ensures
        d.sub_dims(i).valid(),
        forall|p: Point3<Number>| d.sub_dims(i).contains(p) ==> d.contains(p),
        forall|p: Point3<Number>| #[trigger] d.sub_dims(i).contains(p) ==> d.octant_index(p) == i,
{
}

} // verus!
