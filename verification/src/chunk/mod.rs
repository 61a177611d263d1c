//! Chunks: a position in the world and an octree of blocks of height 8.
pub mod file_format;
pub mod format_laws;
pub mod mesher;
pub mod builder;
pub mod format_check;
pub mod quad_order;
pub mod mesh_parts;

use vstd::prelude::*;
use vstd::laws_eq::obeys_concrete_eq;
use vstd::arithmetic::power2::{pow2, lemma2_to64};
use crate::point::Point3;
use crate::octree::Octree;
use crate::octree::octree_data::OctreeData;
use crate::octree::octant_dimensions::{Number, OctantDimensions};
use crate::octree::octant::Octant;
use crate::octree::laws::{octant_contains, octant_entries};

verus! {

pub type Block = u32;

pub const AIR_BLOCK: Block = 0;

pub const DIRT_BLOCK: Block = 1;

/// The height of a chunk's octree.
pub const CHUNK_HEIGHT: u32 = 8;

/// The diameter of a chunk, in blocks.
pub const DIAMETER: usize = 256;

/// A cube of 256 by 256 by 256 blocks at a position of the world.
#[derive(Debug, PartialEq, Eq)]
pub struct Chunk {
    pub pos: Point3<i32>,
    pub octree: Octree<Block>,
}

/// The points of a cube with x changing fastest, then y, then z, each paired with `block`.
pub open spec fn cube_blocks(d: OctantDimensions, block: Block) -> Seq<(Point3<Number>, Block)> {
    let n = d.diameter as int;
    Seq::new((n * n * n) as nat, |i: int| (Point3 {
        x: (d.bottom_left.x + i % n) as u16,
        y: (d.bottom_left.y + (i / n) % n) as u16,
        z: (d.bottom_left.z + i / (n * n)) as u16,
    }, block))
}

/// The points of the leaves' cubes in order, each paired with its leaf's block.
pub open spec fn expand_leaves(leaves: Seq<(OctantDimensions, Block)>) -> Seq<(Point3<Number>, Block)>
    decreases leaves.len(),
{
    if leaves.len() == 0 {
        Seq::empty()
    } else {
        expand_leaves(leaves.drop_last()) + cube_blocks(leaves.last().0, leaves.last().1)
    }
}

/// The coordinates of the `i`-th point of a valid cube fit their types.
proof fn lemma_cube_point_fits(d: OctantDimensions, i: int)
    requires
        d.valid(),
        0 <= i < d.diameter * d.diameter * d.diameter,
    ensures
        d.bottom_left.x + i % (d.diameter as int) <= u16::MAX,
        d.bottom_left.y + (i / (d.diameter as int)) % (d.diameter as int) <= u16::MAX,
        d.bottom_left.z + i / (d.diameter as int * d.diameter as int) <= u16::MAX,
        d.diameter as int * d.diameter as int > 0,
{
    let n = d.diameter as int;
    assert(n * n > 0) by (nonlinear_arith)
        requires
            n >= 1,
    ;
    assert(i / (n * n) < n) by (nonlinear_arith)
        requires
            0 <= i < n * n * n,
            n * n > 0,
    ;
    assert(i % n < n) by (nonlinear_arith)
        requires
            n > 0,
    ;
    assert((i / n) % n < n) by (nonlinear_arith)
        requires
            n > 0,
    ;
}

pub open spec fn origin() -> Point3<Number> {
    Point3 { x: 0, y: 0, z: 0 }
}

impl Chunk {
    /// The chunk's octree is well formed, of height 8 and rooted at the origin.
    pub open spec fn wf(self) -> bool {
        &&& self.octree.wf()
        &&& self.octree.height == CHUNK_HEIGHT
        &&& self.octree.bounds.bottom_left == origin()
    }

    /// The block at `p`, if any.
    pub open spec fn block_at(self, p: Point3<Number>) -> Option<Block> {
        self.octree.lookup(p)
    }

    /// Whether `p` is a position inside a chunk.
    pub open spec fn in_chunk(p: Point3<Number>) -> bool {
        p.x < 256 && p.y < 256 && p.z < 256
    }

    pub fn new(pos: Point3<i32>, octree: Octree<Block>) -> (r: Self)
        ensures
            r.pos == pos,
            r.octree == octree,
    {
        Chunk { pos, octree }
    }

    /// A chunk filled with `block`.
    pub fn with_block(pos: Point3<i32>, block: Block) -> (r: Self)
        ensures
            r.wf(),
            r.octree.compressed(),
            r.pos == pos,
            forall|p: Point3<Number>| #[trigger] r.block_at(p) == Some(block),
    {
        proof {
            lemma2_to64();
        }
        Chunk { pos, octree: Octree::new(Point3::origin(), Some(block), CHUNK_HEIGHT) }
    }

    /// An empty chunk.
    pub fn with_empty(pos: Point3<i32>) -> (r: Self)
        ensures
            r.wf(),
            r.octree.compressed(),
            r.pos == pos,
            forall|p: Point3<Number>| #[trigger] r.block_at(p) is None,
    {
        proof {
            lemma2_to64();
        }
        Chunk { pos, octree: Octree::new(Point3::origin(), None, CHUNK_HEIGHT) }
    }

    /// The block at `pos`, if any.
    pub fn get_block(&self, pos: &Point3<Number>) -> (r: Option<Block>)
        requires
            self.wf(),
        ensures
            r == self.block_at(*pos),
    {
        self.octree.get(pos)
    }

    /// Places `block` at `pos`, which must lie inside the chunk, and hands
    /// back the chunk for further placements.
    pub fn place_block(&mut self, pos: &Point3<Number>, block: Block) -> (r: &mut Self)
        requires
            old(self).wf(),
            Self::in_chunk(*pos),
        ensures
            r.wf(),
            r.pos == old(self).pos,
            old(self).octree.compressed() ==> r.octree.compressed(),
            forall|q: Point3<Number>| Self::in_chunk(q) ==> #[trigger] r.block_at(q) == if q == *pos {
                Some(block)
            } else {
                old(self).block_at(q)
            },
            *final(self) == *final(r),
    {
        proof {
            broadcast use vstd::laws_eq::group_laws_eq;
            lemma2_to64();
            assert(obeys_concrete_eq::<Block>());
        }
        self.octree = self.octree.insert(pos, block);
        self
    }
}

/// The cubes of the leaves of a well formed octree are valid.
pub proof fn lemma_leaves_valid(t: Octree<Block>, k: int)
    requires
        t.wf(),
        0 <= k < t.level_leaves().len(),
    ensures
        t.level_leaves()[k].0.valid(),
{
    crate::octree::level_order::lemma_level_leaves_valid(t);
}

impl Chunk {

    /// The blocks of the chunk as octants, in the order of [Octree::octant_seq].
    pub fn iter(&self) -> (r: Vec<Octant<Block, Point3<Number>>>)
        requires
            self.wf(),
        ensures
            r@ == self.octree.octant_seq(),
            octant_entries(r@).to_multiset() == self.octree.leaves().to_multiset(),
            forall|k: int, q: Point3<Number>| 0 <= k < r@.len() && #[trigger] octant_contains(r@[k], q)
                ==> Self::in_chunk(q) && self.block_at(q) == Some(r@[k].data),
            forall|q: Point3<Number>| Self::in_chunk(q) && (#[trigger] self.block_at(q)) is Some ==> exists|k: int|
                0 <= k < r@.len() && #[trigger] octant_contains(r@[k], q) && self.block_at(q) == Some(r@[k].data),
    {
        let r = self.octree.octants();
        proof {
            lemma2_to64();
            assert forall|q: Point3<Number>| #[trigger] self.octree.bounds.contains(q) == Self::in_chunk(q) by {}
        }
        r
    }

    /// Every single block position of the chunk with its block: the cubes of
    /// [Octree::level_leaves] in order, the points of each with x changing
    /// fastest, then y, then z.
    pub fn block_iter(&self) -> (r: Vec<(Point3<Number>, Block)>)
        requires
            self.wf(),
        ensures
            r@ == expand_leaves(self.octree.level_leaves()),
    {
        let leaves = self.octree.iter();
        let mut out: Vec<(Point3<Number>, Block)> = Vec::new();
        let mut k: usize = 0;
        while k < leaves.len()
            invariant
                self.wf(),
                leaves@ == self.octree.level_leaves(),
                k <= leaves.len(),
                out@ == expand_leaves(leaves@.take(k as int)),
            decreases leaves.len() - k,
        {
            let (dims, block) = leaves[k];
            proof {
                lemma_leaves_valid(self.octree, k as int);
            }
            let ghost before = out@;
            let d = dims.diameter as u64;
            proof {
                assert(d * d <= 65536 * 65536 && d * d * d <= 65536 * 65536 * 65536) by (nonlinear_arith)
                    requires
                        d <= 65536,
                ;
            }
            let total = d * d * d;
            let mut i: u64 = 0;
            while i < total
                invariant
                    dims.valid(),
                    d == dims.diameter,
                    total == d * d * d,
                    d * d <= 65536 * 65536,
                    i <= total,
                    out@ == before + cube_blocks(dims, block).take(i as int),
                decreases total - i,
            {
                proof {
                    lemma_cube_point_fits(dims, i as int);
                }
                let x = dims.bottom_left.x + (i % d) as u16;
                let y = dims.bottom_left.y + ((i / d) % d) as u16;
                let z = dims.bottom_left.z + (i / (d * d)) as u16;
                out.push((Point3::new(x, y, z), block));
                i = i + 1;
                proof {
                    assert(out@ =~= before + cube_blocks(dims, block).take(i as int));
                }
            }
            proof {
                assert(cube_blocks(dims, block).take(total as int) =~= cube_blocks(dims, block));
                assert(leaves@.take(k as int + 1).drop_last() =~= leaves@.take(k as int));
            }
            k = k + 1;
        }
        proof {
            assert(leaves@.take(leaves.len() as int) =~= leaves@);
        }
        out
    }
}

} // verus!
