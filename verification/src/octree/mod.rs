//! A persistent, compressed octree over points with `u16` coordinates.
pub mod octant;
pub mod octant_face;
pub mod octant_dimensions;
pub mod octree_data;
pub mod laws;
pub mod dimensions;
pub mod builder;
pub mod level_order;

use vstd::prelude::*;
use vstd::laws_eq::obeys_concrete_eq;
use vstd::arithmetic::power2::{pow2, lemma_pow2_unfold, lemma_pow2_pos, lemma2_to64};
use std::sync::Arc;
use crate::point::Point3;
use crate::octree::octant::{OctantId, Octant};
use crate::octree::octant_dimensions::{OctantDimensions, Number, pow2_u16, lemma_pow2_monotone};
use crate::octree::octree_data::OctreeData;
use crate::octree::laws::{octant_contains, octant_entries, law_octants_hold, law_octants_cover, law_octants_are_leaves};

verus! {

/// An octree of height `height` covering the cube `bounds`, whose diameter
/// is `2^height`. A node either holds one element for its whole cube, holds
/// nothing, or branches into eight sub octrees kept in eight slots.
///
/// The slots count from the high corner: slot 0 holds the `HighHighHigh`
/// sub octant and slot 7 the `LowLowLow` one; in general slot `i` holds the
/// sub octant that [OctantId] numbers `7 - i` (`4x + 2y + z` for the high
/// halves). Depth first and level order iteration ([Octree::leaves],
/// [Octree::iter]) visit the slots in order, high corner first. The parts
/// that go by [OctantId] (the file format, [Octree::octants], the Morton
/// order of [crate::octree::builder], the parts of a chunk's mesh) visit
/// the slots from 7 down to 0.
#[derive(Debug, PartialEq, Eq)]
pub struct Octree<E> {
    pub data: OctreeData<E>,
    pub bounds: OctantDimensions,
    pub height: u32,
}

/// Another handle on the same shared sub octree, made by `Arc::clone`, which
/// returns a new pointer to the same allocation: trusted to point to a value
/// equal to the one `a` points to.
#[verifier::external_body]
fn share<T>(a: &Arc<T>) -> (r: Arc<T>)
    ensures
        r == *a,
{
    Arc::clone(a)
}

impl<E> Octree<E> {
    /// The octree is well formed: its cube matches its height and lies in
    /// range, and every branch has eight sub octrees one level lower that
    /// cover the eight sub octants of its cube.
    pub open spec fn wf(self) -> bool
        decreases self,
    {
        &&& self.height <= 15
        &&& self.bounds.valid()
        &&& self.bounds.diameter == pow2(self.height as nat)
        &&& match self.data {
            OctreeData::Node(ch) => {
                &&& self.height > 0
                &&& ch.len() == 8
                &&& forall|i: int|
                    0 <= i < 8 ==> {
                        &&& (#[trigger] ch@[i]).wf()
                        &&& ch@[i].height == self.height - 1
                        &&& ch@[i].bounds == self.bounds.sub_dims(i)
                    }
            },
            _ => true,
        }
    }

    /// The element stored at `p`: found by descending into the octant that
    /// `p` falls in until a flat node is reached.
    pub open spec fn lookup(self, p: Point3<Number>) -> Option<E>
        decreases self,
    {
        match self.data {
            OctreeData::Node(ch) => {
                let i = self.bounds.octant_index(p);
                if 0 <= i < ch.len() {
                    ch@[i].lookup(p)
                } else {
                    None
                }
            },
            _ => self.data.value(),
        }
    }

    /// No branch could be replaced by a single flat node: no branch has eight
    /// flat sub octrees with equal data.
    pub open spec fn compressed(self) -> bool
        decreases self,
    {
        match self.data {
            OctreeData::Node(ch) => {
                &&& ch.len() == 8
                &&& !all_flat_equal(ch@)
                &&& forall|i: int| 0 <= i < 8 ==> (#[trigger] ch@[i]).compressed()
            },
            _ => true,
        }
    }
}

impl<E> Octree<E> {
    /// The two octrees are equal node for node: same cubes, same heights,
    /// same kinds of data, equal elements and pairwise equal sub octrees.
    pub open spec fn same_tree(self, other: Octree<E>) -> bool
        decreases self,
    {
        &&& self.bounds == other.bounds
        &&& self.height == other.height
        &&& match self.data {
            OctreeData::Empty => other.data is Empty,
            OctreeData::Leaf(a) => other.data == OctreeData::Leaf(a),
            OctreeData::Node(c1) => match other.data {
                OctreeData::Node(c2) => {
                    &&& c1.len() == c2.len()
                    &&& forall|i: int| 0 <= i < c1.len() ==> (#[trigger] c1@[i]).same_tree(*c2@[i])
                },
                _ => false,
            },
        }
    }
}

impl<E> Octree<E> {
    /// The leaves of the octree with their cubes, depth first, visiting the
    /// sub octrees of a branch in slot order, from slot 0 (`HighHighHigh`)
    /// to slot 7 (`LowLowLow`).
    pub open spec fn leaves(self) -> Seq<(OctantDimensions, E)>
        decreases self,
    {
        match self.data {
            OctreeData::Empty => Seq::empty(),
            OctreeData::Leaf(e) => seq![(self.bounds, e)],
            OctreeData::Node(ch) => if ch.len() == 8 {
                ch@[0].leaves() + ch@[1].leaves() + ch@[2].leaves() + ch@[3].leaves() + ch@[4].leaves()
                    + ch@[5].leaves() + ch@[6].leaves() + ch@[7].leaves()
            } else {
                Seq::empty()
            },
        }
    }
}

impl<E> Octree<E> {
    /// The leaves of the octree as octants, depth first, visiting the sub
    /// octants of a branch in the order of [OctantId], from `LowLowLow`
    /// (slot 7) to `HighHighHigh` (slot 0).
    pub open spec fn octant_seq(self) -> Seq<Octant<E, Point3<Number>>>
        decreases self,
    {
        match self.data {
            OctreeData::Empty => Seq::empty(),
            OctreeData::Leaf(e) => seq![Octant { data: e, bottom_left_front: self.bounds.bottom_left, diameter: self.bounds.diameter as usize }],
            OctreeData::Node(ch) => if ch.len() == 8 {
                ch@[7].octant_seq() + ch@[6].octant_seq() + ch@[5].octant_seq() + ch@[4].octant_seq()
                    + ch@[3].octant_seq() + ch@[2].octant_seq() + ch@[1].octant_seq() + ch@[0].octant_seq()
            } else {
                Seq::empty()
            },
        }
    }
}

/// The leaves of sub octrees `ch[0]` to `ch[j - 1]`, concatenated.
pub open spec fn leaves_upto<E>(ch: Seq<Arc<Octree<E>>>, j: int) -> Seq<(OctantDimensions, E)>
    decreases j,
{
    if j <= 0 {
        Seq::empty()
    } else {
        leaves_upto(ch, j - 1) + ch[j - 1].leaves()
    }
}

pub proof fn lemma_leaves_upto_all<E>(ch: Seq<Arc<Octree<E>>>)
    ensures
        leaves_upto(ch, 8) == ch[0].leaves() + ch[1].leaves() + ch[2].leaves() + ch[3].leaves()
            + ch[4].leaves() + ch[5].leaves() + ch[6].leaves() + ch[7].leaves(),
{
    reveal_with_fuel(leaves_upto, 9);
    assert(leaves_upto(ch, 0) == Seq::<(OctantDimensions, E)>::empty());
    assert(leaves_upto(ch, 8) =~= ch[0].leaves() + ch[1].leaves() + ch[2].leaves() + ch[3].leaves()
            + ch[4].leaves() + ch[5].leaves() + ch[6].leaves() + ch[7].leaves());
}

/// The octants of sub octrees `ch[n-1]` down to `ch[j]`, concatenated.
pub open spec fn octants_down_to<E>(ch: Seq<Arc<Octree<E>>>, n: int, j: int) -> Seq<Octant<E, Point3<Number>>>
    decreases n - j,
{
    if j >= n || j < 0 {
        Seq::empty()
    } else {
        ch[n - 1].octant_seq() + octants_down_to(ch, n - 1, j)
    }
}

/// Extending the range of sub octrees by one more at the low end appends its octants.
pub proof fn lemma_octants_down_to_step<E>(ch: Seq<Arc<Octree<E>>>, n: int, j: int)
    requires
        0 <= j < n,
    ensures
        octants_down_to(ch, n, j) == octants_down_to(ch, n, j + 1) + ch[j].octant_seq(),
    decreases n - j,
{
    if j + 1 < n {
        lemma_octants_down_to_step(ch, n - 1, j);
        assert(octants_down_to(ch, n, j) == ch[n - 1].octant_seq() + octants_down_to(ch, n - 1, j));
        assert(octants_down_to(ch, n, j + 1) == ch[n - 1].octant_seq() + octants_down_to(ch, n - 1, j + 1));
        assert(ch[n - 1].octant_seq() + (octants_down_to(ch, n - 1, j + 1) + ch[j].octant_seq()) == (
        ch[n - 1].octant_seq() + octants_down_to(ch, n - 1, j + 1)) + ch[j].octant_seq());
    } else {
        assert(octants_down_to(ch, n - 1, j) == Seq::<Octant<E, Point3<Number>>>::empty());
        assert(octants_down_to(ch, n, j + 1) == Seq::<Octant<E, Point3<Number>>>::empty());
    }
}

/// All eight sub octrees concatenated from slot 7 down to 0.
pub proof fn lemma_octants_down_to_all<E>(ch: Seq<Arc<Octree<E>>>)
    ensures
        octants_down_to(ch, 8, 0) == ch[7].octant_seq() + ch[6].octant_seq() + ch[5].octant_seq()
            + ch[4].octant_seq() + ch[3].octant_seq() + ch[2].octant_seq() + ch[1].octant_seq()
            + ch[0].octant_seq(),
{
    reveal_with_fuel(octants_down_to, 9);
    assert(octants_down_to(ch, 0, 0) == Seq::<Octant<E, Point3<Number>>>::empty());
    assert(octants_down_to(ch, 1, 0) == ch[0].octant_seq());
}

/// The cubes of the leaves of a well formed octree are valid.
pub proof fn lemma_leaves_valid_all<E>(t: Octree<E>)
    requires
        t.wf(),
    ensures
        all_valid(t.leaves()),
    decreases t.height,
{
    if let OctreeData::Node(ch) = t.data {
        lemma_halving(t.height as nat);
        assert forall|i: int| 0 <= i < 8 implies all_valid(#[trigger] ch@[i].leaves()) by {
            lemma_leaves_valid_all(*ch@[i]);
        }
        lemma_concat_valid(ch@);
        assert(t.leaves() == leaves8(ch@));
    }
}

/// The leaves of eight sub octrees, in slot order.
pub open spec fn leaves8<E>(ch: Seq<Arc<Octree<E>>>) -> Seq<(OctantDimensions, E)> {
    ch[0].leaves() + ch[1].leaves() + ch[2].leaves() + ch[3].leaves() + ch[4].leaves()
        + ch[5].leaves() + ch[6].leaves() + ch[7].leaves()
}

/// The leaves of sub octree `i`.
pub open spec fn child_leaves<E>(ch: Seq<Arc<Octree<E>>>, i: int) -> Seq<(OctantDimensions, E)> {
    ch[i].leaves()
}

/// Every cube in the sequence is valid.
pub open spec fn all_valid<E>(s: Seq<(OctantDimensions, E)>) -> bool {
    forall|k: int| 0 <= k < s.len() ==> (#[trigger] s[k]).0.valid()
}

pub proof fn lemma_all_valid_concat<E>(a: Seq<(OctantDimensions, E)>, b: Seq<(OctantDimensions, E)>)
    requires
        all_valid(a),
        all_valid(b),
    ensures
        all_valid(a + b),
{
    assert forall|k: int| 0 <= k < (a + b).len() implies (#[trigger] (a + b)[k]).0.valid() by {
        if k >= a.len() {
            assert((a + b)[k] == b[k - a.len()]);
        }
    }
}

/// Every leaf of the concatenation of valid leaf sequences is valid.
proof fn lemma_concat_valid<E>(ch: Seq<Arc<Octree<E>>>)
    requires
        forall|i: int| 0 <= i < 8 ==> all_valid(#[trigger] ch[i].leaves()),
    ensures
        all_valid(leaves8(ch)),
{
    assert(all_valid(ch[0].leaves()));
    assert(all_valid(ch[1].leaves()));
    assert(all_valid(ch[2].leaves()));
    assert(all_valid(ch[3].leaves()));
    assert(all_valid(ch[4].leaves()));
    assert(all_valid(ch[5].leaves()));
    assert(all_valid(ch[6].leaves()));
    assert(all_valid(ch[7].leaves()));
    lemma_all_valid_concat(child_leaves(ch, 0), child_leaves(ch, 1));
    lemma_all_valid_concat(child_leaves(ch, 0) + child_leaves(ch, 1), child_leaves(ch, 2));
    lemma_all_valid_concat(child_leaves(ch, 0) + child_leaves(ch, 1) + child_leaves(ch, 2), child_leaves(ch, 3));
    lemma_all_valid_concat(child_leaves(ch, 0) + child_leaves(ch, 1) + child_leaves(ch, 2) + child_leaves(ch, 3), child_leaves(ch, 4));
    lemma_all_valid_concat(child_leaves(ch, 0) + child_leaves(ch, 1) + child_leaves(ch, 2) + child_leaves(ch, 3) + child_leaves(ch, 4), child_leaves(ch, 5));
    lemma_all_valid_concat(child_leaves(ch, 0) + child_leaves(ch, 1) + child_leaves(ch, 2) + child_leaves(ch, 3) + child_leaves(ch, 4) + child_leaves(ch, 5), child_leaves(ch, 6));
    lemma_all_valid_concat(child_leaves(ch, 0) + child_leaves(ch, 1) + child_leaves(ch, 2) + child_leaves(ch, 3) + child_leaves(ch, 4) + child_leaves(ch, 5) + child_leaves(ch, 6), child_leaves(ch, 7));
}

/// A well formed compressed octree that stores the same value `v` at every
/// point of its cube is a single flat node holding `v`.
pub proof fn lemma_uniform_is_flat<E>(t: Octree<E>, v: Option<E>)
    requires
        t.wf(),
        t.compressed(),
        forall|q: Point3<Number>| t.bounds.contains(q) ==> #[trigger] t.lookup(q) == v,
    ensures
        t.data.is_flat(),
        t.data.value() == v,
    decreases t.height,
{
    assert(t.bounds.contains(t.bounds.bottom_left));
    if let OctreeData::Node(ch) = t.data {
        lemma_halving(t.height as nat);
        assert forall|i: int| 0 <= i < 8 implies (#[trigger] ch@[i]).data.is_flat() && ch@[i].data.value() == v by {
            crate::octree::octant_dimensions::lemma_sub_dims_valid(t.bounds, i);
            assert forall|q: Point3<Number>| ch@[i].bounds.contains(q) implies #[trigger] ch@[i].lookup(q) == v by {
                assert(t.bounds.contains(q));
                assert(t.lookup(q) == v);
            }
            lemma_uniform_is_flat(*ch@[i], v);
        }
        assert forall|i: int| 0 <= i < 8 implies (#[trigger] ch@[i]).data.is_flat() && ch@[i].data == ch@[0].data by {
            let d = ch@[i].data;
            let d0 = ch@[0].data;
            assert(d.value() == d0.value());
        }
        assert(all_flat_equal(ch@));
    } else {
        assert(t.lookup(t.bounds.bottom_left) == v);
    }
}

/// The compressed form of an octree is canonical: two well formed
/// compressed octrees over the same cube that store the same element at
/// every point are equal node for node.
pub proof fn lemma_canonical<E>(a: Octree<E>, b: Octree<E>)
    requires
        a.wf(),
        b.wf(),
        a.compressed(),
        b.compressed(),
        a.bounds == b.bounds,
        a.height == b.height,
        forall|q: Point3<Number>| a.bounds.contains(q) ==> #[trigger] a.lookup(q) == b.lookup(q),
    ensures
        a.same_tree(b),
    decreases a.height,
{
    assert(a.bounds.contains(a.bounds.bottom_left));
    if a.data.is_flat() {
        assert forall|q: Point3<Number>| b.bounds.contains(q) implies #[trigger] b.lookup(q) == a.data.value() by {
            assert(a.lookup(q) == b.lookup(q));
        }
        lemma_uniform_is_flat(b, a.data.value());
    } else if b.data.is_flat() {
        assert forall|q: Point3<Number>| a.bounds.contains(q) implies #[trigger] a.lookup(q) == b.data.value() by {
            assert(a.lookup(q) == b.lookup(q));
        }
        lemma_uniform_is_flat(a, b.data.value());
    } else {
        let c1 = a.data->Node_0;
        let c2 = b.data->Node_0;
        lemma_halving(a.height as nat);
        assert forall|i: int| 0 <= i < c1.len() implies (#[trigger] c1@[i]).same_tree(*c2@[i]) by {
            crate::octree::octant_dimensions::lemma_sub_dims_valid(a.bounds, i);
            assert forall|q: Point3<Number>| c1@[i].bounds.contains(q) implies #[trigger] c1@[i].lookup(q)
                == c2@[i].lookup(q) by {
                assert(a.bounds.contains(q));
                assert(a.lookup(q) == b.lookup(q));
            }
            lemma_canonical(*c1@[i], *c2@[i]);
        }
    }
}

/// All eight sub octrees are flat and hold equal data.
pub open spec fn all_flat_equal<E>(ch: Seq<Arc<Octree<E>>>) -> bool {
    forall|i: int| 0 <= i < 8 ==> (#[trigger] ch[i]).data.is_flat() && ch[i].data == ch[0].data
}

impl OctantDimensions {
    /// The point of the cube nearest to `p`: each coordinate clamped into the cube.
    pub open spec fn clamp(self, p: Point3<Number>) -> Point3<Number> {
        Point3 {
            x: clamp_coord(p.x as int, self.bottom_left.x as int, self.diameter as int) as u16,
            y: clamp_coord(p.y as int, self.bottom_left.y as int, self.diameter as int) as u16,
            z: clamp_coord(p.z as int, self.bottom_left.z as int, self.diameter as int) as u16,
        }
    }
}

pub open spec fn clamp_coord(v: int, lo: int, d: int) -> int {
    if v < lo {
        lo
    } else if v > lo + d - 1 {
        lo + d - 1
    } else {
        v
    }
}


/// The cube of a well formed octree above height zero halves evenly.
pub proof fn lemma_halving(h: nat)
    requires
        0 < h <= 15,
    ensures
        pow2(h) == 2 * pow2((h - 1) as nat),
        pow2((h - 1) as nat) >= 1,
        pow2(h) <= 32768,
{
    lemma_pow2_unfold(h);
    lemma_pow2_pos((h - 1) as nat);
    lemma_pow2_monotone(h, 15);
    lemma2_to64();
}

/// Clamping a point into a cube and into the sub octant it falls in agree.
pub proof fn lemma_clamp_sub(d: OctantDimensions, p: Point3<Number>)
    requires
        d.valid(),
        d.diameter >= 2,
        d.diameter % 2 == 0,
    ensures
        0 <= d.octant_index(p) < 8,
        d.sub_dims(d.octant_index(p)).clamp(p) == d.clamp(p),
        d.contains(d.clamp(p)),
        d.octant_index(d.clamp(p)) == d.octant_index(p),
{
}

/// A point inside a cube is its own clamp.
pub proof fn lemma_clamp_inside(d: OctantDimensions, p: Point3<Number>)
    requires
        d.contains(p),
    ensures
        d.clamp(p) == p,
{
}

impl<E: Copy + PartialEq> Octree<E> {
    /// An octree of the given height at `pos`, holding `opt` everywhere.
    pub fn new(pos: Point3<Number>, opt: Option<E>, height: u32) -> (r: Self)
        requires
            height < 16,
        ensures
            r.bounds == OctantDimensions::new_spec(pos, pow2(height as nat) as u16),
            r.height == height,
            r.data == (match opt {
                Some(e) => OctreeData::Leaf(e),
                None => OctreeData::Empty,
            }),
    {
        let data = match opt {
            Some(e) => OctreeData::Leaf(e),
            None => OctreeData::Empty,
        };
        Octree { data, bounds: OctantDimensions::new(pos, pow2_u16(height)), height }
    }

    /// An empty octree of height `power_of_2` at the origin.
    pub fn with_uniform_dimension(power_of_2: u32) -> (r: Self)
        requires
            power_of_2 < 16,
        ensures
            r.bounds == OctantDimensions::new_spec(
                Point3 { x: 0, y: 0, z: 0 },
                pow2(power_of_2 as nat) as u16,
            ),
            r.height == power_of_2,
            r.data is Empty,
            power_of_2 <= 15 ==> r.wf(),
    {
        let diameter = pow2_u16(power_of_2);
        let bounds = OctantDimensions::new(Point3::new(0, 0, 0), diameter);
        proof {
            lemma_pow2_monotone(power_of_2 as nat, 15);
            lemma2_to64();
        }
        Octree { data: OctreeData::Empty, bounds, height: power_of_2 }
    }

    /// An octree made of its parts, unchecked.
    pub fn with_fields(data: OctreeData<E>, bounds: OctantDimensions, height: u32) -> (r: Self)
        ensures
            r.data == data,
            r.bounds == bounds,
            r.height == height,
    {
        Octree { data, bounds, height }
    }

    fn with_data(&self, data: OctreeData<E>) -> (r: Self)
        ensures
            r.data == data,
            r.bounds == self.bounds,
            r.height == self.height,
    {
        Octree { data, bounds: self.bounds, height: self.height }
    }

    /// The element stored at `pos`.
    pub fn get(&self, pos: &Point3<Number>) -> (r: Option<E>)
        requires
            self.wf(),
        ensures
            r == self.lookup(*pos),
        decreases self.height,
    {
        match &self.data {
            OctreeData::Empty => None,
            OctreeData::Leaf(e) => Some(*e),
            OctreeData::Node(octants) => {
                let index = self.bounds.get_octant_index(pos);
                octants[index].get(pos)
            },
        }
    }

    pub fn height(&self) -> (r: u32)
        ensures
            r == self.height,
    {
        self.height
    }

    /// The bottom left corner of the octree's cube.
    pub fn root_point(&self) -> (r: Point3<Number>)
        ensures
            r == self.bounds.bottom_left,
    {
        self.bounds.bottom_left()
    }

    pub fn data(&self) -> (r: &OctreeData<E>)
        ensures
            *r == self.data,
    {
        &self.data
    }

    pub fn set_data(&mut self, data: OctreeData<E>)
        ensures
            final(self).data == data,
            final(self).bounds == old(self).bounds,
            final(self).height == old(self).height,
    {
        self.data = data;
    }

    pub fn is_empty(&self) -> (r: bool)
        ensures
            r == (self.data is Empty),
    {
        self.data.is_empty()
    }

    pub fn is_node(&self) -> (r: bool)
        ensures
            r == (self.data is Node),
    {
        self.data.is_node()
    }

    /// Replaces a branch whose eight sub octrees are flat and equal by their common data.
    fn compress_nodes(self) -> (r: Self)
        requires
            self.wf(),
            obeys_concrete_eq::<E>(),
        ensures
            r.wf(),
            (self.data matches OctreeData::Node(ch) ==> forall|i: int|
                0 <= i < 8 ==> (#[trigger] ch@[i]).compressed()) ==> r.compressed(),
            r.data is Node ==> r == self,
            (self.data matches OctreeData::Node(ch) && all_flat_equal(ch@)) ==> r.data == (
            self.data->Node_0)@[0].data,
            !(self.data matches OctreeData::Node(ch) && all_flat_equal(ch@)) ==> r == self,
            r.bounds == self.bounds,
            r.height == self.height,
            forall|q: Point3<Number>| self.bounds.contains(q) ==> #[trigger] r.lookup(q) == self.lookup(q),
    {
        let collapsed: Option<OctreeData<E>> = match &self.data {
            OctreeData::Node(nodes) => flat_common_data(nodes),
            _ => None,
        };
        match collapsed {
            Some(d) => {
                let r = self.with_data(d);
                proof {
                    let ch = self.data->Node_0;
                    assert(all_flat_equal(ch@));
                    assert forall|q: Point3<Number>| self.bounds.contains(q) implies #[trigger] r.lookup(q) == self.lookup(q) by {
                        let i = self.bounds.octant_index(q);
                        assert(0 <= i < 8);
                        assert(ch@[i].data == ch@[0].data);
                        assert(ch@[i].lookup(q) == ch@[i].data.value());
                        assert(self.lookup(q) == ch@[i].lookup(q));
                    }
                }
                r
            },
            None => {
                proof {
                    if self.data is Node {
                        let ch = self.data->Node_0;
                        if all_flat_equal(ch@) {
                            assert(ch@[0].data.is_flat());
                        }
                    }
                }
                self
            },
        }
    }
}

impl<E: Copy + PartialEq> Octree<E> {
    /// Places flat `data` at the point of the cube nearest to `pos`.
    fn ins(&self, pos: &Point3<Number>, data: OctreeData<E>) -> (r: Self)
        requires
            self.wf(),
            data.is_flat(),
            data is Empty ==> self.data is Leaf,
            obeys_concrete_eq::<E>(),
        ensures
            r.wf(),
            self.compressed() ==> r.compressed(),
            r.bounds == self.bounds,
            r.height == self.height,
            forall|q: Point3<Number>| self.bounds.contains(q) ==> #[trigger] r.lookup(q) == if q
                == self.bounds.clamp(*pos) {
                data.value()
            } else {
                self.lookup(q)
            },
        decreases self.height, 1nat,
    {
        if self.height == 0 {
            proof {
                lemma2_to64();
            }
            return self.with_data(data);
        }
        proof {
            lemma_halving(self.height as nat);
            lemma_clamp_sub(self.bounds, *pos);
        }
        match &self.data {
            OctreeData::Empty => self.create_sub_nodes(pos, data, OctreeData::Empty),
            OctreeData::Leaf(e) => {
                let leaf = OctreeData::Leaf(*e);
                if leaf.flat_eq(&data) {
                    let r = self.with_data(data);
                    r
                } else {
                    self.create_sub_nodes(pos, data, leaf)
                }
            },
            OctreeData::Node(old_nodes) => {
                let index = self.bounds.get_octant_index(pos);
                let child = old_nodes[index].ins(pos, data);
                let node = self.replace_child(index, child);
                proof {
                    assert forall|q: Point3<Number>| self.bounds.contains(q) implies #[trigger] node.lookup(q) == if q
                        == self.bounds.clamp(*pos) {
                        data.value()
                    } else {
                        self.lookup(q)
                    } by {
                        let k = self.bounds.octant_index(q);
                        crate::octree::octant_dimensions::lemma_sub_octant_contains(self.bounds, q);
                        if k != index {
                            assert(q != self.bounds.clamp(*pos));
                        }
                    }
                    if self.compressed() {
                        assert(old_nodes@[index as int].compressed());
                    }
                }
                node.compress_nodes()
            },
        }
    }

    /// Whether `pos` lies outside the octree's cube.
    pub fn outside_bounds(&self, pos: &Point3<Number>) -> (r: bool)
        requires
            self.bounds.valid(),
        ensures
            r == !self.bounds.contains(*pos),
    {
        pos.x > self.bounds.x_max() || pos.x < self.bounds.x_min() || pos.y > self.bounds.y_max()
            || pos.y < self.bounds.y_min() || pos.z > self.bounds.z_max() || pos.z
            < self.bounds.z_min()
    }

    /// The octree with `elem` stored at `pos`, which must lie inside the cube.
    pub fn insert(&self, pos: &Point3<Number>, elem: E) -> (r: Self)
        requires
            self.wf(),
            self.bounds.contains(*pos),
            obeys_concrete_eq::<E>(),
        ensures
            r.wf(),
            self.compressed() ==> r.compressed(),
            r.bounds == self.bounds,
            r.height == self.height,
            forall|q: Point3<Number>| self.bounds.contains(q) ==> #[trigger] r.lookup(q) == if q
                == *pos {
                Some(elem)
            } else {
                self.lookup(q)
            },
    {
        proof {
            lemma_clamp_inside(self.bounds, *pos);
        }
        self.ins(pos, OctreeData::Leaf(elem))
    }

    /// The octree with nothing stored at the point of its cube nearest to
    /// `pos` (`pos` itself when it lies inside the cube).
    pub fn delete(&self, pos: &Point3<Number>) -> (r: Self)
        requires
            self.wf(),
            obeys_concrete_eq::<E>(),
        ensures
            r.wf(),
            self.compressed() ==> r.compressed(),
            r.bounds == self.bounds,
            r.height == self.height,
            forall|q: Point3<Number>| self.bounds.contains(q) ==> #[trigger] r.lookup(q) == if q
                == self.bounds.clamp(*pos) {
                None
            } else {
                self.lookup(q)
            },
        decreases self.height,
    {
        if self.height == 0 {
            proof {
                lemma2_to64();
            }
            return self.with_data(OctreeData::Empty);
        }
        proof {
            lemma_halving(self.height as nat);
            lemma_clamp_sub(self.bounds, *pos);
        }
        match &self.data {
            OctreeData::Empty => self.with_data(OctreeData::Empty),
            OctreeData::Leaf(e) => self.create_sub_nodes(pos, OctreeData::Empty, OctreeData::Leaf(*e)),
            OctreeData::Node(old_nodes) => {
                let index = self.bounds.get_octant_index(pos);
                let child = old_nodes[index].delete(pos);
                let node = self.replace_child(index, child);
                proof {
                    assert forall|q: Point3<Number>| self.bounds.contains(q) implies #[trigger] node.lookup(q) == if q
                        == self.bounds.clamp(*pos) {
                        None
                    } else {
                        self.lookup(q)
                    } by {
                        let k = self.bounds.octant_index(q);
                        crate::octree::octant_dimensions::lemma_sub_octant_contains(self.bounds, q);
                        if k != index {
                            assert(q != self.bounds.clamp(*pos));
                        }
                    }
                    if self.compressed() {
                        assert(old_nodes@[index as int].compressed());
                    }
                }
                node.compress_nodes()
            },
        }
    }

    /// Compresses the whole octree: every branch whose eight sub octrees end
    /// up flat and equal becomes a single flat node.
    pub fn compress(&mut self)
        requires
            old(self).wf(),
            obeys_concrete_eq::<E>(),
        ensures
            final(self).wf(),
            final(self).compressed(),
            final(self).bounds == old(self).bounds,
            final(self).height == old(self).height,
            forall|q: Point3<Number>| old(self).bounds.contains(q) ==> #[trigger] final(self).lookup(q)
                == old(self).lookup(q),
    {
        let c = self.compressed_copy();
        *self = c;
    }

    fn compressed_copy(&self) -> (r: Self)
        requires
            self.wf(),
            obeys_concrete_eq::<E>(),
        ensures
            r.wf(),
            r.compressed(),
            r.bounds == self.bounds,
            r.height == self.height,
            forall|q: Point3<Number>| self.bounds.contains(q) ==> #[trigger] r.lookup(q) == self.lookup(q),
        decreases self.height,
    {
        match &self.data {
            OctreeData::Node(old_nodes) => {
                proof {
                    lemma_halving(self.height as nat);
                }
                let mut nodes: Vec<Arc<Octree<E>>> = Vec::new();
                let mut j: usize = 0;
                while j < 8
                    invariant
                        self.wf(),
                        self.data == OctreeData::Node(*old_nodes),
                        old_nodes.len() == 8,
                        obeys_concrete_eq::<E>(),
                        0 <= j <= 8,
                        nodes.len() == j,
                        forall|k: int|
                            0 <= k < j ==> {
                                &&& (#[trigger] nodes@[k]).wf()
                                &&& nodes@[k].compressed()
                                &&& nodes@[k].height == self.height - 1
                                &&& nodes@[k].bounds == self.bounds.sub_dims(k)
                            },
                        forall|k: int, q: Point3<Number>|
                            0 <= k < j && self.bounds.sub_dims(k).contains(q) ==> #[trigger] nodes@[k].lookup(q)
                                == old_nodes@[k].lookup(q),
                    decreases 8 - j,
                {
                    let child = old_nodes[j].compressed_copy();
                    nodes.push(Arc::new(child));
                    j = j + 1;
                }
                let node = self.with_data(OctreeData::Node(nodes));
                proof {
                    assert forall|q: Point3<Number>| self.bounds.contains(q) implies #[trigger] node.lookup(q)
                        == self.lookup(q) by {
                        let k = self.bounds.octant_index(q);
                        let ch = node.data->Node_0;
                        crate::octree::octant_dimensions::lemma_sub_octant_contains(self.bounds, q);
                        assert(node.lookup(q) == ch@[k].lookup(q));
                    }
                }
                node.compress_nodes()
            },
            _ => self.with_data(self.data.copy_flat()),
        }
    }

    /// The leaves of the octree with their cubes, in the order of [Octree::leaves].
    pub(crate) fn depth_first_leaves(&self) -> (r: Vec<(OctantDimensions, E)>)
        requires
            self.wf(),
        ensures
            r@ == self.leaves(),
    {
        let mut out: Vec<(OctantDimensions, E)> = Vec::new();
        self.collect_leaves(&mut out);
        out
    }

    /// The leaves of the octree as octants, in the order of [Octree::octant_seq].
    pub fn octants(&self) -> (r: Vec<Octant<E, Point3<Number>>>)
        requires
            self.wf(),
        ensures
            r@ == self.octant_seq(),
            octant_entries(r@).to_multiset() == self.leaves().to_multiset(),
            forall|k: int, q: Point3<Number>| 0 <= k < r@.len() && #[trigger] octant_contains(r@[k], q)
                ==> self.bounds.contains(q) && self.lookup(q) == Some(r@[k].data),
            forall|q: Point3<Number>| self.bounds.contains(q) && (#[trigger] self.lookup(q)) is Some ==> exists|k: int|
                0 <= k < r@.len() && #[trigger] octant_contains(r@[k], q) && self.lookup(q) == Some(r@[k].data),
    {
        let mut out: Vec<Octant<E, Point3<Number>>> = Vec::new();
        self.collect_octants(&mut out);
        proof {
            assert forall|k: int, q: Point3<Number>| 0 <= k < out@.len() && #[trigger] octant_contains(out@[k], q)
                implies self.bounds.contains(q) && self.lookup(q) == Some(out@[k].data) by {
                law_octants_hold(*self, k, q);
            }
            assert forall|q: Point3<Number>| self.bounds.contains(q) && (#[trigger] self.lookup(q)) is Some implies exists|k: int|
                0 <= k < out@.len() && #[trigger] octant_contains(out@[k], q) && self.lookup(q) == Some(out@[k].data) by {
                law_octants_cover(*self, q);
            }
            law_octants_are_leaves(*self);
        }
        out
    }

    fn collect_octants(&self, out: &mut Vec<Octant<E, Point3<Number>>>)
        requires
            self.wf(),
        ensures
            final(out)@ == old(out)@ + self.octant_seq(),
        decreases self.height,
    {
        match &self.data {
            OctreeData::Empty => {
                assert(old(out)@ + self.octant_seq() == old(out)@);
            },
            OctreeData::Leaf(e) => {
                out.push(Octant::new(*e, self.bounds.bottom_left, self.bounds.diameter as usize));
            },
            OctreeData::Node(children) => {
                let ghost start = out@;
                let mut j: usize = 8;
                while j > 0
                    invariant
                        self.wf(),
                        self.data == OctreeData::Node(*children),
                        children.len() == 8,
                        0 <= j <= 8,
                        out@ == start + octants_down_to(children@, 8, j as int),
                    decreases j,
                {
                    let ghost before = out@;
                    children[j - 1].collect_octants(out);
                    proof {
                        lemma_octants_down_to_step(children@, 8, j as int - 1);
                        assert(out@ == before + children@[j - 1].octant_seq());
                        assert(out@ == start + octants_down_to(children@, 8, j as int - 1)) by {
                            assert(start + octants_down_to(children@, 8, j as int) + children@[j - 1].octant_seq()
                                == start + (octants_down_to(children@, 8, j as int) + children@[j - 1].octant_seq()));
                        }
                    }
                    j = j - 1;
                }
                proof {
                    lemma_octants_down_to_all(children@);
                }
            },
        }
    }

    fn collect_leaves(&self, out: &mut Vec<(OctantDimensions, E)>)
        requires
            self.wf(),
        ensures
            final(out)@ == old(out)@ + self.leaves(),
        decreases self.height,
    {
        match &self.data {
            OctreeData::Empty => {
                assert(old(out)@ + self.leaves() == old(out)@);
            },
            OctreeData::Leaf(e) => {
                out.push((self.bounds, *e));
            },
            OctreeData::Node(children) => {
                let ghost start = out@;
                let mut j: usize = 0;
                while j < 8
                    invariant
                        self.wf(),
                        self.data == OctreeData::Node(*children),
                        children.len() == 8,
                        0 <= j <= 8,
                        out@ == start + leaves_upto(children@, j as int),
                    decreases 8 - j,
                {
                    children[j].collect_leaves(out);
                    proof {
                        assert(out@ =~= start + leaves_upto(children@, j as int + 1));
                    }
                    j = j + 1;
                }
                proof {
                    lemma_leaves_upto_all(children@);
                    assert(out@ =~= old(out)@ + self.leaves());
                }
            },
        }
    }

    /// This branch with the sub octree in slot `index` replaced by `child`.
    fn replace_child(&self, index: usize, child: Octree<E>) -> (r: Self)
        requires
            self.wf(),
            self.data is Node,
            index < 8,
            child.wf(),
            child.height == self.height - 1,
            child.bounds == self.bounds.sub_dims(index as int),
        ensures
            r.wf(),
            r.bounds == self.bounds,
            r.height == self.height,
            r.data matches OctreeData::Node(ch) && (self.data matches OctreeData::Node(old) && forall|k: int|
                0 <= k < 8 ==> #[trigger] ch@[k] == if k == index {
                    child
                } else {
                    *old@[k]
                }),
            forall|q: Point3<Number>| self.bounds.contains(q) ==> #[trigger] r.lookup(q) == if self.bounds.octant_index(q)
                == index {
                child.lookup(q)
            } else {
                self.lookup(q)
            },
    {
        let old_nodes = match &self.data {
            OctreeData::Node(ch) => ch,
            _ => {
                proof {
                    assert(false);
                }
                return self.with_data(OctreeData::Empty);
            },
        };
        let mut child_opt = Some(child);
        let mut nodes: Vec<Arc<Octree<E>>> = Vec::new();
        let mut j: usize = 0;
        while j < 8
            invariant
                self.data == OctreeData::Node(*old_nodes),
                old_nodes.len() == 8,
                index < 8,
                0 <= j <= 8,
                nodes.len() == j,
                j <= index ==> child_opt == Some(child),
                forall|k: int|
                    0 <= k < j ==> #[trigger] nodes@[k] == if k == index {
                        child
                    } else {
                        *old_nodes@[k]
                    },
            decreases 8 - j,
        {
            if j == index {
                let c = child_opt.take().unwrap();
                nodes.push(Arc::new(c));
            } else {
                nodes.push(share(&old_nodes[j]));
            }
            j = j + 1;
        }
        let node = self.with_data(OctreeData::Node(nodes));
        proof {
            lemma_halving(self.height as nat);
            assert forall|q: Point3<Number>| self.bounds.contains(q) implies #[trigger] node.lookup(q) == if self.bounds.octant_index(q)
                == index {
                child.lookup(q)
            } else {
                self.lookup(q)
            } by {
                let k = self.bounds.octant_index(q);
                let ch = node.data->Node_0;
                assert(node.lookup(q) == ch@[k].lookup(q));
            }
        }
        node
    }

    /// Splits a flat node into a branch of eight flat sub octrees holding
    /// `default`, and places flat `elem`, which differs from `default`, at the
    /// point of the cube nearest to `pos`.
    fn create_sub_nodes(&self, pos: &Point3<Number>, elem: OctreeData<E>, default: OctreeData<E>) -> (r: Self)
        requires
            self.wf(),
            self.height > 0,
            elem.is_flat(),
            default.is_flat(),
            elem != default,
            obeys_concrete_eq::<E>(),
        ensures
            r.wf(),
            r.data is Node,
            r.compressed(),
            r.bounds == self.bounds,
            r.height == self.height,
            forall|q: Point3<Number>| self.bounds.contains(q) ==> #[trigger] r.lookup(q) == if q
                == self.bounds.clamp(*pos) {
                elem.value()
            } else {
                default.value()
            },
        decreases self.height, 0nat,
    {
        proof {
            lemma_halving(self.height as nat);
            lemma_clamp_sub(self.bounds, *pos);
        }
        let modified = self.bounds.get_octant_index(pos);
        let mut nodes: Vec<Arc<Octree<E>>> = Vec::new();
        let mut i: u8 = 0;
        while i < 8
            invariant
                self.wf(),
                self.height > 0,
                elem.is_flat(),
                default.is_flat(),
                obeys_concrete_eq::<E>(),
                self.bounds.diameter == 2 * pow2((self.height - 1) as nat),
                pow2((self.height - 1) as nat) >= 1,
                modified == self.bounds.octant_index(*pos),
                self.bounds.octant_index(self.bounds.clamp(*pos)) == modified,
                self.bounds.sub_dims(modified as int).clamp(*pos) == self.bounds.clamp(*pos),
                0 <= i <= 8,
                nodes.len() == i,
                elem != default,
                forall|k: int|
                    0 <= k < i ==> {
                        &&& (#[trigger] nodes@[k]).wf()
                        &&& nodes@[k].compressed()
                        &&& nodes@[k].height == self.height - 1
                        &&& nodes@[k].bounds == self.bounds.sub_dims(k)
                        &&& k != modified ==> nodes@[k].data == default
                        &&& k == modified && nodes@[k].data.is_flat() ==> nodes@[k].data == elem
                    },
                forall|k: int, q: Point3<Number>|
                    0 <= k < i && self.bounds.sub_dims(k).contains(q) ==> #[trigger] nodes@[k].lookup(q) == if q
                        == self.bounds.clamp(*pos) {
                        elem.value()
                    } else {
                        default.value()
                    },
            decreases 8 - i,
        {
            let octant = OctantId::from_u8(7 - i).unwrap();
            let bounds = self.bounds.sub_octant_dimensions(octant);
            proof {
                crate::octree::octant_dimensions::lemma_sub_dims_valid(self.bounds, i as int);
            }
            let child = Octree { data: default.copy_flat(), bounds, height: self.height - 1 };
            proof {
                if i as usize == modified && elem is Empty {
                    assert(default is Leaf);
                }
            }
            let child = if i as usize == modified {
                child.ins(pos, elem.copy_flat())
            } else {
                child
            };
            proof {
                assert forall|q: Point3<Number>| self.bounds.sub_dims(i as int).contains(q) implies #[trigger] child.lookup(q) == if q
                    == self.bounds.clamp(*pos) {
                    elem.value()
                } else {
                    default.value()
                } by {
                    if i as usize != modified {
                        assert(self.bounds.octant_index(q) == i);
                    }
                }
                if i as usize == modified && child.data.is_flat() {
                    let c = self.bounds.clamp(*pos);
                    assert(self.bounds.sub_dims(i as int).contains(c));
                    assert(child.lookup(c) == elem.value());
                    assert(child.lookup(c) == child.data.value());
                }
            }
            nodes.push(Arc::new(child));
            i = i + 1;
        }
        let node = self.with_data(OctreeData::Node(nodes));
        proof {
            assert forall|q: Point3<Number>| self.bounds.contains(q) implies #[trigger] node.lookup(q) == if q
                == self.bounds.clamp(*pos) {
                elem.value()
            } else {
                default.value()
            } by {
                let k = self.bounds.octant_index(q);
                let ch = node.data->Node_0;
                crate::octree::octant_dimensions::lemma_sub_octant_contains(self.bounds, q);
                assert(node.lookup(q) == ch@[k].lookup(q));
            }
            let ch = node.data->Node_0;
            let other: int = if modified == 0 { 1 } else { 0 };
            assert(ch@[other].data == default);
            if all_flat_equal(ch@) {
                assert(ch@[modified as int].data == ch@[0].data);
                assert(ch@[other].data == ch@[0].data);
                assert(ch@[modified as int].data == elem);
            }
        }
        node
    }
}

impl OctantDimensions {
    pub open spec fn new_spec(bottom_left: Point3<Number>, diameter: u16) -> OctantDimensions {
        OctantDimensions { bottom_left, diameter }
    }
}


impl<E> Octree<E> {
    /// Whether the octree is well formed, as [Octree::wf].
    pub fn is_well_formed(&self) -> (r: bool)
        ensures
            r == self.wf(),
        decreases self.height,
    {
        if self.height > 15 {
            return false;
        }
        let d = self.bounds.diameter as u32;
        let b = self.bounds.bottom_left;
        if d < 1 || b.x as u32 + d > 65536 || b.y as u32 + d > 65536 || b.z as u32 + d > 65536 {
            return false;
        }
        if self.bounds.diameter != pow2_u16(self.height) {
            return false;
        }
        match &self.data {
            OctreeData::Node(ch) => {
                if self.height == 0 || ch.len() != 8 {
                    return false;
                }
                proof {
                    lemma_halving(self.height as nat);
                }
                let mut i: u8 = 0;
                while i < 8
                    invariant
                        0 < self.height <= 15,
                        self.bounds.valid(),
                        self.bounds.diameter == pow2(self.height as nat),
                        self.bounds.diameter == 2 * pow2((self.height - 1) as nat),
                        pow2((self.height - 1) as nat) >= 1,
                        self.data == OctreeData::Node(*ch),
                        ch.len() == 8,
                        i <= 8,
                        forall|k: int|
                            0 <= k < i ==> {
                                &&& (#[trigger] ch@[k]).wf()
                                &&& ch@[k].height == self.height - 1
                                &&& ch@[k].bounds == self.bounds.sub_dims(k)
                            },
                    decreases 8 - i,
                {
                    let child = &ch[i as usize];
                    if child.height != self.height - 1 {
                        return false;
                    }
                    let octant = OctantId::from_u8(7 - i).unwrap();
                    if child.bounds != self.bounds.sub_octant_dimensions(octant) {
                        return false;
                    }
                    if !child.is_well_formed() {
                        return false;
                    }
                    i = i + 1;
                }
                true
            },
            _ => true,
        }
    }
}


/// The data that all eight sub octrees share, when they are all flat and equal.
fn flat_common_data<E: Copy + PartialEq>(nodes: &Vec<Arc<Octree<E>>>) -> (r: Option<OctreeData<E>>)
    requires
        nodes.len() == 8,
        obeys_concrete_eq::<E>(),
    ensures
        r is Some <==> all_flat_equal(nodes@),
        r matches Some(d) ==> d == nodes@[0].data,
{
    let mut all_equal = nodes[0].data.is_flat_exec();
    let mut i: usize = 1;
    while i < 8
        invariant
            nodes.len() == 8,
            1 <= i <= 8,
            obeys_concrete_eq::<E>(),
            all_equal <==> forall|j: int|
                0 <= j < i ==> (#[trigger] nodes@[j]).data.is_flat() && nodes@[j].data == nodes@[0].data,
        decreases 8 - i,
    {
        let eq = nodes[i].data.flat_eq(&nodes[0].data);
        all_equal = all_equal && eq;
        i = i + 1;
    }
    if all_equal {
        Some(nodes[0].data.copy_flat())
    } else {
        None
    }
}

impl<E: Copy + PartialEq> Octree<E> {
    /// The branch of the given height at `pos` with the given eight sub
    /// octrees, replaced by their common data when they are all flat and equal.
    pub fn with_children(children: Vec<Arc<Octree<E>>>, pos: Point3<Number>, height: u32) -> (r: Self)
        requires
            height < 16,
            children.len() == 8,
            obeys_concrete_eq::<E>(),
        ensures
            r.bounds == OctantDimensions::new_spec(pos, pow2(height as nat) as u16),
            r.height == height,
            r.data == if all_flat_equal(children@) {
                children@[0].data
            } else {
                OctreeData::Node(children)
            },
    {
        let bounds = OctantDimensions::new(pos, pow2_u16(height));
        match flat_common_data(&children) {
            Some(d) => Octree { data: d, bounds, height },
            None => Octree { data: OctreeData::Node(children), bounds, height },
        }
    }
}

} // verus!
