//! Building chunks: a full octree of empty cells to fill, compressed when done.
use vstd::prelude::*;
use vstd::laws_eq::obeys_concrete_eq;
use vstd::arithmetic::power2::pow2;
use std::sync::Arc;
use crate::point::Point3;
use crate::chunk::{Block, Chunk, CHUNK_HEIGHT, origin};
use crate::octree::{Octree, lemma_halving};
use crate::octree::octree_data::OctreeData;
use crate::octree::octant::{OctantId, sub_bottom_left};
use crate::octree::octant_dimensions::{Number, OctantDimensions, pow2_u16};

verus! {

/// Every branch of the octree is split down to single cells, and every
/// cell is empty.
pub open spec fn full_and_empty(t: Octree<Block>) -> bool
    decreases t,
{
    match t.data {
        OctreeData::Node(ch) => {
            &&& ch.len() == 8
            &&& forall|i: int| 0 <= i < 8 ==> full_and_empty(*#[trigger] ch@[i])
        },
        OctreeData::Empty => t.height == 0,
        OctreeData::Leaf(_) => false,
    }
}

/// The `i`-th of a branch's sub octrees.
pub open spec fn sub_tree(ch: Seq<Arc<Octree<Block>>>, i: int) -> Octree<Block> {
    *ch[i]
}

/// A full octree does not hold any block.
pub proof fn lemma_full_and_empty_lookup(t: Octree<Block>, p: Point3<Number>)
    requires
        full_and_empty(t),
    ensures
        t.lookup(p) is None,
    decreases t,
{
    if let OctreeData::Node(ch) = t.data {
        let i = t.bounds.octant_index(p);
        if 0 <= i < ch.len() {
            lemma_full_and_empty_lookup(sub_tree(ch@, i), p);
        }
    }
}

/// The octree of the given height at `pos` split down to single cells, all
/// empty. As in every branch, slot `i` holds the sub octant that [OctantId]
/// numbers `7 - i`: slot 0 the high corner, slot 7 the low corner at `pos`.
pub fn gen_subtree(pos: Point3<Number>, height: u32) -> (r: Octree<Block>)
    requires
        height <= 15,
        pos.x + pow2(height as nat) <= u16::MAX + 1,
        pos.y + pow2(height as nat) <= u16::MAX + 1,
        pos.z + pow2(height as nat) <= u16::MAX + 1,
    ensures
        r.wf(),
        r.bounds == OctantDimensions::new_spec(pos, pow2(height as nat) as u16),
        r.height == height,
        full_and_empty(r),
        forall|p: Point3<Number>| #[trigger] r.lookup(p) is None,
        height > 0 ==> (r.data matches OctreeData::Node(ch) && forall|i: int|
            0 <= i < 8 ==> (#[trigger] ch@[i]).bounds.bottom_left == sub_bottom_left(
                pos,
                pow2((height - 1) as nat) as int,
                7 - i,
            )),
    decreases height,
{
    if height == 0 {
        proof {
            vstd::arithmetic::power2::lemma2_to64();
        }
        Octree::new(pos, None, height)
    } else {
        proof {
            lemma_halving(height as nat);
        }
        let bounds = OctantDimensions::new(pos, pow2_u16(height));
        let mut nodes: Vec<Arc<Octree<Block>>> = Vec::new();
        let mut i: u8 = 0;
        while i < 8
            invariant
                0 < height <= 15,
                bounds == OctantDimensions::new_spec(pos, pow2(height as nat) as u16),
                bounds.valid(),
                bounds.diameter == 2 * pow2((height - 1) as nat),
                pow2((height - 1) as nat) >= 1,
                0 <= i <= 8,
                nodes.len() == i,
                forall|k: int|
                    0 <= k < i ==> {
                        &&& (#[trigger] nodes@[k]).wf()
                        &&& full_and_empty(*nodes@[k])
                        &&& nodes@[k].height == height - 1
                        &&& nodes@[k].bounds == bounds.sub_dims(k)
                    },
            decreases 8 - i,
        {
            let octant = OctantId::from_u8(7 - i).unwrap();
            let sub = bounds.sub_octant_dimensions(octant);
            proof {
                crate::octree::octant_dimensions::lemma_sub_dims_valid(bounds, i as int);
            }
            let child = gen_subtree(sub.bottom_left, height - 1);
            nodes.push(Arc::new(child));
            i = i + 1;
        }
        let r = Octree::with_fields(OctreeData::Node(nodes), bounds, height);
        proof {
            assert(full_and_empty(r));
            assert forall|p: Point3<Number>| #[trigger] r.lookup(p) is None by {
                lemma_full_and_empty_lookup(r, p);
            }
        }
        r
    }
}

/// A chunk under construction: its position and its octree.
pub struct ChunkBuilder {
    pub pos: Point3<i32>,
    pub tree: Octree<Block>,
}

impl ChunkBuilder {
    /// A builder whose octree is split down to single cells, all empty.
    pub fn new(pos: Point3<i32>) -> (r: Self)
        ensures
            r.pos == pos,
            r.tree.wf(),
            r.tree.height == CHUNK_HEIGHT,
            r.tree.bounds.bottom_left == origin(),
            full_and_empty(r.tree),
    {
        proof {
            vstd::arithmetic::power2::lemma2_to64();
        }
        ChunkBuilder { pos, tree: gen_subtree(Point3::new(0, 0, 0), 8) }
    }

    fn with_tree(pos: Point3<i32>, tree: Octree<Block>) -> (r: Self)
        ensures
            r.pos == pos,
            r.tree == tree,
    {
        ChunkBuilder { pos, tree }
    }

    /// The chunk made of the builder's octree, compressed.
    pub fn build(self) -> (r: Chunk)
        requires
            self.tree.wf(),
        ensures
            r.pos == self.pos,
            r.octree.wf(),
            r.octree.compressed(),
            r.octree.bounds == self.tree.bounds,
            r.octree.height == self.tree.height,
            forall|q: Point3<Number>| self.tree.bounds.contains(q) ==> #[trigger] r.octree.lookup(q)
                == self.tree.lookup(q),
    {
        proof {
            broadcast use vstd::laws_eq::group_laws_eq;
            assert(obeys_concrete_eq::<Block>());
        }
        let ChunkBuilder { pos, tree } = self;
        let mut tree = tree;
        tree.compress();
        Chunk::new(pos, tree)
    }
}

} // verus!
