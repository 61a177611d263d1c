//! Building an octree from the elements of its cells listed in Morton order.
use vstd::prelude::*;
use vstd::laws_eq::obeys_concrete_eq;
use vstd::arithmetic::power2::{pow2, lemma_pow2_unfold, lemma_pow2_pos, lemma2_to64};
use std::sync::Arc;
use crate::point::Point3;
use crate::morton_code::MortonCode;
use crate::morton_code::{spread, interleave, pow8, encode_spec};
use crate::octree::{Octree, lemma_halving};
use crate::octree::octree_data::OctreeData;
use crate::octree::octant::OctantId;
use crate::octree::octant_dimensions::{Number, OctantDimensions, pow2_u16};

verus! {

/// The position of the cell `p` in the Morton order of the cells of the cube
/// of height `h` at `b`: the bits of its offsets from `b` interleaved.
pub open spec fn raw_index(b: Point3<Number>, p: Point3<Number>, h: nat) -> int {
    interleave((p.x - b.x) as nat, (p.y - b.y) as nat, (p.z - b.z) as nat, h) as int
}

/// Splitting off the top bit of a value of `n` bits splits off the top
/// digit of its spread.
pub proof fn lemma_spread_top(v: nat, vp: nat, a: nat, n: nat)
    requires
        n >= 1,
        a <= 1,
        vp < pow2((n - 1) as nat),
        v == a * pow2((n - 1) as nat) + vp,
    ensures
        spread(v, n) == a * pow8((n - 1) as nat) + spread(vp, (n - 1) as nat),
    decreases n,
{
    if n == 1 {
        assert(pow2(0) == 1) by {
            lemma2_to64();
        }
        assert(vp == 0);
        assert(spread(v / 2, 0) == 0);
        assert(pow8(0) == 1);
    } else {
        let m = (n - 1) as nat;
        let p2 = pow2((m - 1) as nat);
        lemma_pow2_unfold(m);
        assert(pow2(m) == 2 * p2);
        assert(v / 2 == a * p2 + vp / 2 && v % 2 == vp % 2) by {
            if a == 0 {
            } else {
                assert(v == 2 * p2 + vp);
            }
        }
        lemma_spread_top(v / 2, vp / 2, a, m);
        assert(pow8(m) == 8 * pow8((m - 1) as nat));
        assert(spread(vp, m) == spread(vp / 2, (m - 1) as nat) * 8 + vp % 2);
        assert(8 * (a * pow8((m - 1) as nat)) == a * pow8(m)) by (nonlinear_arith)
            requires
                pow8(m) == 8 * pow8((m - 1) as nat),
        ;
    }
}

/// A cell of the sub cube numbered `i` (held in slot `7 - i`) comes in the
/// `i`-th eighth of the Morton order of the cube, at its place in the sub
/// cube's own order.
pub proof fn lemma_raw_index_split(d: OctantDimensions, h: nat, i: int, p: Point3<Number>)
    requires
        1 <= h <= 15,
        d.valid(),
        d.diameter == pow2(h),
        0 <= i < 8,
        d.sub_dims(7 - i).contains(p),
    ensures
        raw_index(d.bottom_left, p, h) == i * pow8((h - 1) as nat) + raw_index(
            d.sub_dims(7 - i).bottom_left,
            p,
            (h - 1) as nat,
        ),
{
    lemma_halving(h);
    let half = pow2((h - 1) as nat);
    let s = d.sub_dims(7 - i).bottom_left;
    let b = d.bottom_left;
    let ax: nat = if i >= 4 { 1 } else { 0 };
    let ay: nat = if i % 4 >= 2 { 1 } else { 0 };
    let az: nat = if i % 2 == 1 { 1 } else { 0 };
    assert(d.radius() == half);
    lemma_spread_top((p.x - b.x) as nat, (p.x - s.x) as nat, ax, h);
    lemma_spread_top((p.y - b.y) as nat, (p.y - s.y) as nat, ay, h);
    lemma_spread_top((p.z - b.z) as nat, (p.z - s.z) as nat, az, h);
    let q = pow8((h - 1) as nat);
    assert(4 * (ax * q) + 2 * (ay * q) + az * q == i * q) by (nonlinear_arith)
        requires
            0 <= i < 8,
            ax == (if i >= 4 { 1int } else { 0int }),
            ay == (if i % 4 >= 2 { 1int } else { 0int }),
            az == (if i % 2 == 1 { 1int } else { 0int }),
    ;
}

/// The interleaved bits of three values of `h` bits take `3h` bits.
pub proof fn lemma_interleave_bound(x: nat, y: nat, z: nat, h: nat)
    requires
        x < pow2(h),
        y < pow2(h),
        z < pow2(h),
    ensures
        interleave(x, y, z, h) < pow8(h),
    decreases h,
{
    if h == 0 {
        assert(pow2(0) == 1) by {
            lemma2_to64();
        }
        assert(pow8(0) == 1);
    } else {
        lemma_pow2_unfold(h);
        lemma_interleave_bound(x / 2, y / 2, z / 2, (h - 1) as nat);
        let m = (h - 1) as nat;
        assert(spread(x, h) == spread(x / 2, m) * 8 + x % 2);
        assert(spread(y, h) == spread(y / 2, m) * 8 + y % 2);
        assert(spread(z, h) == spread(z / 2, m) * 8 + z % 2);
        assert(pow8(h) == 8 * pow8(m));
    }
}

/// Eight to the power `n`, for `n` at most 10.
pub fn pow8_usize(n: u32) -> (r: usize)
    requires
        n <= 10,
    ensures
        r == pow8(n as nat),
{
    let mut r: usize = 1;
    let mut k: u32 = 0;
    while k < n
        invariant
            k <= n <= 10,
            r == pow8(k as nat),
            r <= 0x40000000,
        decreases n - k,
    {
        proof {
            lemma_pow8_bound(k as nat + 1, 10);
            lemma_pow8_10();
        }
        r = r * 8;
        k = k + 1;
    }
    r
}

proof fn lemma_pow8_10()
    ensures
        pow8(10) == 0x40000000,
{
    reveal_with_fuel(pow8, 11);
}

proof fn lemma_pow8_bound(a: nat, b: nat)
    requires
        a <= b,
    ensures
        pow8(a) <= pow8(b),
        pow8(a) >= 1,
    decreases b,
{
    if a < b {
        lemma_pow8_bound(a, (b - 1) as nat);
    } else if a > 0 {
        lemma_pow8_bound((a - 1) as nat, (a - 1) as nat);
    }
}

/// The octree of height `height` at `pos` whose cell `p` holds entry
/// `start + raw_index(pos, p, height)` of `data`, compressed.
pub fn build_octree<E: Copy + PartialEq>(data: &Vec<Option<E>>, start: usize, pos: Point3<Number>, height: u32) -> (r: Octree<E>)
    requires
        height <= 10,
        start + pow8(height as nat) <= data.len(),
        pos.x + pow2(height as nat) <= u16::MAX + 1,
        pos.y + pow2(height as nat) <= u16::MAX + 1,
        pos.z + pow2(height as nat) <= u16::MAX + 1,
        obeys_concrete_eq::<E>(),
    ensures
        r.wf(),
        r.compressed(),
        r.height == height,
        r.bounds == OctantDimensions::new_spec(pos, pow2(height as nat) as u16),
        forall|p: Point3<Number>| r.bounds.contains(p) ==> #[trigger] r.lookup(p) == data@[start + raw_index(pos, p, height as nat)],
    decreases height,
{
    if height == 0 {
        proof {
            lemma2_to64();
        }
        let r = Octree::new(pos, data[start], 0);
        proof {
            assert forall|p: Point3<Number>| r.bounds.contains(p) implies #[trigger] r.lookup(p) == data@[start + raw_index(pos, p, 0)] by {
                assert(spread((p.x - pos.x) as nat, 0) == 0);
                assert(spread((p.y - pos.y) as nat, 0) == 0);
                assert(spread((p.z - pos.z) as nat, 0) == 0);
            }
        }
        r
    } else {
        proof {
            lemma_halving(height as nat);
            lemma_pow8_bound((height - 1) as nat, 10);
            lemma_pow8_10();
            assert(pow8(height as nat) == 8 * pow8((height - 1) as nat));
        }
        let segment = pow8_usize(height - 1);
        let bounds = OctantDimensions::new(pos, pow2_u16(height));
        let mut nodes: Vec<Arc<Octree<E>>> = Vec::new();
        let mut i: u8 = 0;
        while i < 8
            invariant
                0 < height <= 10,
                bounds == OctantDimensions::new_spec(pos, pow2(height as nat) as u16),
                bounds.valid(),
                bounds.diameter == 2 * pow2((height - 1) as nat),
                pow2((height - 1) as nat) >= 1,
                segment == pow8((height - 1) as nat),
                start + 8 * segment <= data.len(),
                obeys_concrete_eq::<E>(),
                0 <= i <= 8,
                nodes.len() == i,
                forall|k: int|
                    0 <= k < i ==> {
                        &&& (#[trigger] nodes@[k]).wf()
                        &&& nodes@[k].compressed()
                        &&& nodes@[k].height == height - 1
                        &&& nodes@[k].bounds == bounds.sub_dims(k)
                    },
                forall|k: int, p: Point3<Number>|
                    0 <= k < i && bounds.sub_dims(k).contains(p) ==> #[trigger] nodes@[k].lookup(p)
                        == data@[start + (7 - k) * segment + raw_index(bounds.sub_dims(k).bottom_left, p, (height - 1) as nat)],
            decreases 8 - i,
        {
            let octant = OctantId::from_u8(7 - i).unwrap();
            let sub = bounds.sub_octant_dimensions(octant);
            proof {
                crate::octree::octant_dimensions::lemma_sub_dims_valid(bounds, i as int);
                assert((7 - i as int) * segment + segment <= 8 * segment) by (nonlinear_arith)
                    requires
                        i < 8,
                ;
            }
            let child = build_octree(data, start + ((7 - i) as usize) * segment, sub.bottom_left, height - 1);
            nodes.push(Arc::new(child));
            i = i + 1;
        }
        let node = Octree::with_fields(OctreeData::Node(nodes), bounds, height);
        proof {
            assert forall|p: Point3<Number>| bounds.contains(p) implies #[trigger] node.lookup(p)
                == data@[start + raw_index(pos, p, height as nat)] by {
                let k = bounds.octant_index(p);
                crate::octree::octant_dimensions::lemma_sub_octant_contains(bounds, p);
                lemma_raw_index_split(bounds, height as nat, 7 - k, p);
                let ch = node.data->Node_0;
                assert(node.lookup(p) == ch@[k].lookup(p));
                assert(ch@[k].lookup(p) == data@[start + (7 - k) * segment + raw_index(bounds.sub_dims(k).bottom_left, p, (height - 1) as nat)]);
            }
        }
        node.compress_nodes()
    }
}

/// The elements of the cells of an octree of height `height` at the
/// origin, listed in Morton order, to be filled and then built.
pub struct OctreeBuilder<E> {
    pub data: Vec<Option<E>>,
    pub height: u32,
}

impl<E: Copy + PartialEq> OctreeBuilder<E> {
    /// A builder with every cell empty.
    pub fn new(height: u32) -> (r: Self)
        requires
            height <= 10,
        ensures
            r.height == height,
            r.data@ == Seq::new(pow8(height as nat), |i: int| None::<E>),
    {
        let n = pow8_usize(height);
        let mut data: Vec<Option<E>> = Vec::new();
        let mut k: usize = 0;
        while k < n
            invariant
                k <= n,
                data@ == Seq::new(k as nat, |i: int| None::<E>),
            decreases n - k,
        {
            data.push(None);
            k = k + 1;
            proof {
                assert(data@ =~= Seq::new(k as nat, |i: int| None::<E>));
            }
        }
        OctreeBuilder { data, height }
    }

    /// Sets the entry of the cell `p` of the builder's cube: the entry at
    /// the Morton code of `p`.
    pub fn set(&mut self, p: &Point3<Number>, value: Option<E>)
        requires
            old(self).height <= 10,
            old(self).data.len() == pow8(old(self).height as nat),
            p.x < pow2(old(self).height as nat),
            p.y < pow2(old(self).height as nat),
            p.z < pow2(old(self).height as nat),
        ensures
            final(self).height == old(self).height,
            final(self).data@ == old(self).data@.update(
                raw_index(Point3 { x: 0, y: 0, z: 0 }, *p, old(self).height as nat),
                value,
            ),
    {
        let h = self.height;
        proof {
            crate::octree::octant_dimensions::lemma_pow2_monotone(h as nat, 15);
            law_raw_index_is_morton_code(*p, h as nat);
            lemma_interleave_bound(p.x as nat, p.y as nat, p.z as nat, h as nat);
            lemma_pow8_bound(h as nat, 10);
            lemma_pow8_10();
        }
        let index = MortonCode::new(p.x as i32, p.y as i32, p.z as i32).raw();
        proof {
            assert(index == raw_index(Point3 { x: 0, y: 0, z: 0 }, *p, h as nat));
        }
        self.data.set(index as usize, value);
    }

    /// The compressed octree at the origin whose cell `p` holds the entry of
    /// the builder at the Morton code of `p`.
    pub fn build(self) -> (r: Octree<E>)
        requires
            self.height <= 10,
            self.data.len() == pow8(self.height as nat),
            obeys_concrete_eq::<E>(),
        ensures
            r.wf(),
            r.compressed(),
            r.height == self.height,
            r.bounds == OctantDimensions::new_spec(Point3 { x: 0, y: 0, z: 0 }, pow2(self.height as nat) as u16),
            forall|p: Point3<Number>| r.bounds.contains(p) ==> #[trigger] r.lookup(p)
                == self.data@[raw_index(Point3 { x: 0, y: 0, z: 0 }, p, self.height as nat)],
    {
        proof {
            crate::octree::octant_dimensions::lemma_pow2_monotone(self.height as nat, 15);
            lemma2_to64();
        }
        build_octree(&self.data, 0, Point3::new(0, 0, 0), self.height)
    }
}


proof fn lemma_spread_zero(n: nat)
    ensures
        spread(0, n) == 0,
    decreases n,
{
    if n > 0 {
        lemma_spread_zero((n - 1) as nat);
    }
}

/// Spreading more bits than a value has adds nothing.
proof fn lemma_spread_extend(v: nat, m: nat, n: nat)
    requires
        v < pow2(m),
        m <= n,
    ensures
        spread(v, n) == spread(v, m),
    decreases m,
{
    if m == 0 {
        assert(pow2(0) == 1) by {
            lemma2_to64();
        }
        lemma_spread_zero(n);
    } else {
        lemma_pow2_unfold(m);
        lemma_spread_extend(v / 2, (m - 1) as nat, (n - 1) as nat);
    }
}

/// The place of a cell in the builder's order is the Morton code of the cell.
pub proof fn law_raw_index_is_morton_code(p: Point3<Number>, h: nat)
    requires
        h <= 15,
        p.x < pow2(h),
        p.y < pow2(h),
        p.z < pow2(h),
    ensures
        raw_index(Point3 { x: 0, y: 0, z: 0 }, p, h) == encode_spec(p.x as i32, p.y as i32, p.z as i32),
{
    lemma_spread_extend(p.x as nat, h, 32);
    lemma_spread_extend(p.y as nat, h, 32);
    lemma_spread_extend(p.z as nat, h, 32);
    assert(p.x as i32 as u32 as nat == p.x as nat);
    assert(p.y as i32 as u32 as nat == p.y as nat);
    assert(p.z as i32 as u32 as nat == p.z as nat);
}

} // verus!
