//! What rendering a chunk takes: whole cubes for the parts that are one
//! block, greedy meshes for the parts that vary.
use vstd::prelude::*;
use vstd::arithmetic::power2::pow2;
use std::sync::Arc;
use crate::point::Point3;
use crate::chunk::{Block, Chunk};
use crate::chunk::mesher::{Mesher, Quad};
use crate::octree::Octree;
use crate::octree::octree_data::OctreeData;
use crate::octree::octant_dimensions::{Number, lemma_sub_octant_contains};
use crate::octree::lemma_halving;
use crate::octree::laws::{lemma_concat_contains, child_tree};

verus! {

/// A piece of a chunk's mesh.
#[derive(Debug)]
pub enum MeshPart {
    /// A cube filled with one block, given by its corner and its diameter.
    Cube { at: Point3<Number>, diameter: u16 },
    /// The quads of the greedy mesh of an octree whose corner is at `at`.
    Quads { at: Point3<Number>, quads: Vec<Quad> },
}

/// The mesher of an octree, as [Mesher::new] makes it.
pub open spec fn mesher_of(t: &Octree<Block>) -> Mesher {
    Mesher { octree: t, offset: t.bounds.bottom_left, size: pow2(t.height as nat) as usize }
}

/// `p` renders the octree `t`: a cube for a flat octree holding a block,
/// quads of its greedy mesh for a branch.
pub open spec fn part_fits(p: MeshPart, t: Octree<Block>) -> bool {
    match t.data {
        OctreeData::Leaf(_) => p == MeshPart::Cube { at: t.bounds.bottom_left, diameter: t.bounds.diameter },
        OctreeData::Node(_) => match p {
            MeshPart::Quads { at, quads } => {
                &&& at == t.bounds.bottom_left
                &&& quads@ == mesher_of(&t).mesh_quads()
                &&& forall|k: int| 0 <= k < quads@.len() ==> mesher_of(&t).is_mesh_quad(#[trigger] quads@[k])
            },
            _ => false,
        },
        OctreeData::Empty => false,
    }
}

/// The first `n` sub octrees of a branch in the order of [OctantId] (from
/// slot 7, `LowLowLow`, down), those that are not empty.
pub open spec fn nonempty_upto(g: Seq<Arc<Octree<Block>>>, n: int) -> Seq<Octree<Block>>
    decreases n,
{
    if n <= 0 {
        Seq::empty()
    } else {
        let rest = nonempty_upto(g, n - 1);
        if g[8 - n].data is Empty {
            rest
        } else {
            rest.push(*g[8 - n])
        }
    }
}

/// What a sub octree of the chunk is rendered as: nothing when empty,
/// itself when flat, its sub octrees that are not empty when a branch.
pub open spec fn child_targets(c: Octree<Block>) -> Seq<Octree<Block>> {
    match c.data {
        OctreeData::Empty => Seq::empty(),
        OctreeData::Leaf(_) => seq![c],
        OctreeData::Node(g) => nonempty_upto(g@, 8),
    }
}

/// The targets of the first `n` sub octrees of a branch in the order of
/// [OctantId] (from slot 7, `LowLowLow`, down).
pub open spec fn targets_upto(ch: Seq<Arc<Octree<Block>>>, n: int) -> Seq<Octree<Block>>
    decreases n,
{
    if n <= 0 {
        Seq::empty()
    } else {
        targets_upto(ch, n - 1) + child_targets(*ch[8 - n])
    }
}

/// The octrees that the parts of a chunk's mesh render, in order: the
/// whole chunk when it is flat, otherwise the targets of its sub octrees.
pub open spec fn mesh_targets(t: Octree<Block>) -> Seq<Octree<Block>> {
    match t.data {
        OctreeData::Empty => Seq::empty(),
        OctreeData::Leaf(_) => seq![t],
        OctreeData::Node(ch) => targets_upto(ch@, 8),
    }
}

/// The parts rendering the sub octree `g`, which is not empty, of the chunk.
fn render_part(g: &Octree<Block>) -> (r: MeshPart)
    requires
        g.wf(),
        g.height <= 8,
        !(g.data is Empty),
    ensures
        part_fits(r, *g),
{
    match &g.data {
        OctreeData::Node(_) => {
            let mesher = Mesher::new(g);
            let quads = mesher.generate_quads_array();
            proof {
                assert(mesher == mesher_of(g));
            }
            MeshPart::Quads { at: g.root_point(), quads }
        },
        _ => MeshPart::Cube { at: g.root_point(), diameter: g.bounds.diameter() },
    }
}

/// Whether `q` lies in the cube with corner `at` and diameter `d`.
pub open spec fn in_cube(at: Point3<Number>, d: int, q: Point3<Number>) -> bool {
    &&& at.x <= q.x < at.x + d
    &&& at.y <= q.y < at.y + d
    &&& at.z <= q.z < at.z + d
}

/// Whether the part renders the cell `q` of a chunk: a cube part the cells
/// of its cube, a quads part those of the octree it meshes, which lies two
/// levels below the chunk's root and so has diameter 64.
pub open spec fn part_contains(p: MeshPart, q: Point3<Number>) -> bool {
    match p {
        MeshPart::Cube { at, diameter } => in_cube(at, diameter as int, q),
        MeshPart::Quads { at, .. } => in_cube(at, 64, q),
    }
}

/// The octree `x` is a sub octree that a part of the mesh of a chunk
/// renders and that contains `q`: a flat one holding a block, or a branch
/// two levels below the chunk's root.
pub open spec fn target_holds(x: Octree<Block>, q: Point3<Number>) -> bool {
    &&& x.wf()
    &&& x.bounds.contains(q)
    &&& x.data is Leaf || (x.data is Node && x.height == 6)
}

proof fn lemma_nonempty_contains(g: Seq<Arc<Octree<Block>>>, n: int, s: int)
    requires
        0 <= 8 - n <= s < 8,
        !(g[s].data is Empty),
    ensures
        nonempty_upto(g, n).contains(*g[s]),
    decreases n,
{
    let rest = nonempty_upto(g, n - 1);
    if s == 8 - n {
        assert(rest.push(*g[s])[rest.len() as int] == *g[s]);
    } else {
        lemma_nonempty_contains(g, n - 1, s);
        let y = child_tree(g, 8 - n);
        if !(y.data is Empty) {
            let m = choose|m: int| 0 <= m < rest.len() && rest[m] == *g[s];
            assert(rest.push(y)[m] == *g[s]);
        }
    }
}

proof fn lemma_targets_contains(ch: Seq<Arc<Octree<Block>>>, n: int, s: int, x: Octree<Block>)
    requires
        0 <= 8 - n <= s < 8,
        child_targets(*ch[s]).contains(x),
    ensures
        targets_upto(ch, n).contains(x),
    decreases n,
{
    if s > 8 - n {
        lemma_targets_contains(ch, n - 1, s, x);
    }
    lemma_concat_contains(targets_upto(ch, n - 1), child_targets(child_tree(ch, 8 - n)), x);
}

/// Every filled cell of a well formed octree of height 8 lies in one of the
/// octrees that the parts of its mesh render: a flat sub octree, or a
/// branch two levels below the root.
pub proof fn law_mesh_targets_cover(t: Octree<Block>, q: Point3<Number>)
    requires
        t.wf(),
        t.height == 8,
        t.bounds.contains(q),
        t.lookup(q) is Some,
    ensures
        exists|k: int| 0 <= k < mesh_targets(t).len() && target_holds(#[trigger] mesh_targets(t)[k], q),
{
    let x = lemma_target_of(t, q);
    let k = choose|k: int| 0 <= k < mesh_targets(t).len() && mesh_targets(t)[k] == x;
    assert(target_holds(mesh_targets(t)[k], q));
}

proof fn lemma_target_of(t: Octree<Block>, q: Point3<Number>) -> (x: Octree<Block>)
    requires
        t.wf(),
        t.height == 8,
        t.bounds.contains(q),
        t.lookup(q) is Some,
    ensures
        mesh_targets(t).contains(x),
        target_holds(x, q),
{
    match t.data {
        OctreeData::Leaf(_) => {
            assert(mesh_targets(t) == seq![t]);
            assert(mesh_targets(t)[0] == t);
            t
        },
        OctreeData::Node(ch) => {
            lemma_halving(8);
            lemma_sub_octant_contains(t.bounds, q);
            let i = t.bounds.octant_index(q);
            let c = *ch@[i];
            assert(c.wf() && c.height == 7 && c.bounds == t.bounds.sub_dims(i));
            assert(t.lookup(q) == c.lookup(q));
            match c.data {
                OctreeData::Leaf(_) => {
                    assert(child_targets(c)[0] == c);
                    lemma_targets_contains(ch@, 8, i, c);
                    c
                },
                OctreeData::Node(g) => {
                    lemma_halving(7);
                    lemma_sub_octant_contains(c.bounds, q);
                    let j = c.bounds.octant_index(q);
                    let x = *g@[j];
                    assert(x.wf() && x.height == 6 && x.bounds == c.bounds.sub_dims(j));
                    assert(c.lookup(q) == x.lookup(q));
                    lemma_nonempty_contains(g@, 8, j);
                    lemma_targets_contains(ch@, 8, i, x);
                    x
                },
                OctreeData::Empty => {
                    arbitrary()
                },
            }
        },
        OctreeData::Empty => {
            arbitrary()
        },
    }
}

/// `x` is a part of `t` that its mesh may render: a well formed octree whose
/// cube lies inside that of `t`, flat and holding a block, whose cells then
/// all hold that block in `t`, or a branch of diameter 64.
pub open spec fn target_sound(t: Octree<Block>, x: Octree<Block>) -> bool {
    &&& x.wf()
    &&& x.data is Leaf || (x.data is Node && x.height == 6 && x.bounds.diameter == 64)
    &&& forall|q: Point3<Number>| #[trigger] x.bounds.contains(q) ==> t.bounds.contains(q)
        && (x.data is Leaf ==> t.lookup(q) == x.data.value())
}

/// Every octree of `s` is a part of `t` that its mesh may render.
pub open spec fn all_sound(t: Octree<Block>, s: Seq<Octree<Block>>) -> bool {
    forall|k: int| 0 <= k < s.len() ==> target_sound(t, #[trigger] s[k])
}

/// A sub octree of slot `i` of a branch `t` holds at each of its cells what `t` holds.
proof fn lemma_slot_lookup(t: Octree<Block>, i: int)
    requires
        t.wf(),
        t.data is Node,
        0 <= i < 8,
    ensures
        ({
            let c = child_tree(t.data->Node_0@, i);
            &&& c.wf()
            &&& c.height == t.height - 1
            &&& c.bounds == t.bounds.sub_dims(i)
            &&& forall|q: Point3<Number>| #[trigger] c.bounds.contains(q) ==> t.bounds.contains(q) && t.lookup(q) == c.lookup(q)
        }),
{
    let ch = t.data->Node_0@;
    lemma_halving(t.height as nat);
    crate::octree::octant_dimensions::lemma_sub_dims_valid(t.bounds, i);
    assert(ch[i].wf());
}

proof fn lemma_nonempty_sound(t: Octree<Block>, c: Octree<Block>, n: int)
    requires
        t.wf(),
        c.wf(),
        c.height == 7,
        c.data is Node,
        forall|q: Point3<Number>| #[trigger] c.bounds.contains(q) ==> t.bounds.contains(q) && t.lookup(q) == c.lookup(q),
        0 <= n <= 8,
    ensures
        all_sound(t, nonempty_upto(c.data->Node_0@, n)),
    decreases n,
{
    let g = c.data->Node_0@;
    if n > 0 {
        lemma_nonempty_sound(t, c, n - 1);
        let rest = nonempty_upto(g, n - 1);
        let y = child_tree(g, 8 - n);
        if !(y.data is Empty) {
            lemma_slot_lookup(c, 8 - n);
            vstd::arithmetic::power2::lemma2_to64();
            assert(target_sound(t, y));
            assert forall|k: int| 0 <= k < rest.push(y).len() implies target_sound(t, #[trigger] rest.push(y)[k]) by {
                if k < rest.len() {
                    assert(rest.push(y)[k] == rest[k]);
                }
            }
        }
    }
}

proof fn lemma_targets_sound(t: Octree<Block>, n: int)
    requires
        t.wf(),
        t.height == 8,
        t.data is Node,
        0 <= n <= 8,
    ensures
        all_sound(t, targets_upto(t.data->Node_0@, n)),
    decreases n,
{
    let ch = t.data->Node_0@;
    if n > 0 {
        lemma_targets_sound(t, n - 1);
        let c = child_tree(ch, 8 - n);
        lemma_slot_lookup(t, 8 - n);
        let a = targets_upto(ch, n - 1);
        let b = child_targets(c);
        match c.data {
            OctreeData::Leaf(_) => {
                assert(target_sound(t, c));
                assert(b == seq![c]);
            },
            OctreeData::Node(_) => {
                lemma_nonempty_sound(t, c, 8);
            },
            OctreeData::Empty => {
                assert(b =~= Seq::<Octree<Block>>::empty());
            },
        }
        assert(all_sound(t, b));
        assert forall|k: int| 0 <= k < (a + b).len() implies target_sound(t, #[trigger] (a + b)[k]) by {
            if k < a.len() {
                assert((a + b)[k] == a[k]);
            } else {
                assert((a + b)[k] == b[k - a.len()]);
            }
        }
    }
}

/// What the mesh of a well formed octree of height 8 renders lies in its
/// cube: each flat part holds its block in every one of its cells, and each
/// branch has diameter 64.
pub proof fn law_mesh_targets_sound(t: Octree<Block>)
    requires
        t.wf(),
        t.height == 8,
    ensures
        all_sound(t, mesh_targets(t)),
{
    match t.data {
        OctreeData::Leaf(_) => {
            assert(mesh_targets(t) == seq![t]);
        },
        OctreeData::Node(_) => {
            lemma_targets_sound(t, 8);
        },
        OctreeData::Empty => {
            assert(mesh_targets(t) =~= Seq::<Octree<Block>>::empty());
        },
    }
}

/// Every filled cell of the chunk lies in a part of `v`.
pub open spec fn mesh_covers(c: Chunk, v: Seq<MeshPart>) -> bool {
    forall|q: Point3<Number>| Chunk::in_chunk(q) && (#[trigger] c.block_at(q)) is Some ==> exists|k: int|
        0 <= k < v.len() && #[trigger] part_contains(v[k], q)
}

/// Parts that render, one each and in order, the mesh targets of a well formed octree of height 8
/// cover each of its filled cells.
pub proof fn law_parts_cover(t: Octree<Block>, v: Seq<MeshPart>)
    requires
        t.wf(),
        t.height == 8,
        v.len() == mesh_targets(t).len(),
        forall|k: int| 0 <= k < v.len() ==> part_fits(#[trigger] v[k], mesh_targets(t)[k]),
    ensures
        forall|q: Point3<Number>| t.bounds.contains(q) && (#[trigger] t.lookup(q)) is Some ==> exists|k: int|
            0 <= k < v.len() && #[trigger] part_contains(v[k], q),
{
    assert forall|q: Point3<Number>| t.bounds.contains(q) && (#[trigger] t.lookup(q)) is Some implies exists|k: int|
        0 <= k < v.len() && #[trigger] part_contains(v[k], q) by {
        law_mesh_targets_cover(t, q);
        let k = choose|k: int| 0 <= k < mesh_targets(t).len() && target_holds(#[trigger] mesh_targets(t)[k], q);
        let x = mesh_targets(t)[k];
        assert(part_fits(v[k], x));
        if x.data is Node {
            vstd::arithmetic::power2::lemma2_to64();
        }
        assert(part_contains(v[k], q));
    }
}

/// Every part of `v` lies in the chunk, and every cell of a cube part holds a block.
pub open spec fn mesh_sound(c: Chunk, v: Seq<MeshPart>) -> bool {
    forall|k: int, q: Point3<Number>| 0 <= k < v.len() && #[trigger] part_contains(v[k], q) ==> Chunk::in_chunk(q)
        && (v[k] is Cube ==> c.block_at(q) is Some)
}

/// Parts that render, one each and in order, the mesh targets of a well
/// formed octree of height 8 lie in its cube, and the cells of each cube
/// part all hold a block.
pub proof fn law_parts_sound(t: Octree<Block>, v: Seq<MeshPart>)
    requires
        t.wf(),
        t.height == 8,
        v.len() == mesh_targets(t).len(),
        forall|k: int| 0 <= k < v.len() ==> part_fits(#[trigger] v[k], mesh_targets(t)[k]),
    ensures
        forall|k: int, q: Point3<Number>| 0 <= k < v.len() && #[trigger] part_contains(v[k], q) ==> t.bounds.contains(q)
            && (v[k] is Cube ==> t.lookup(q) is Some),
{
    law_mesh_targets_sound(t);
    assert forall|k: int, q: Point3<Number>| 0 <= k < v.len() && #[trigger] part_contains(v[k], q) implies t.bounds.contains(q)
        && (v[k] is Cube ==> t.lookup(q) is Some) by {
        let x = mesh_targets(t)[k];
        assert(part_fits(v[k], x));
        assert(target_sound(t, x));
        assert(x.bounds.contains(q));
    }
}

impl Chunk {
    /// The pieces of the chunk's mesh: nothing for an empty chunk; one cube
    /// for a chunk of one block; otherwise, for each sub octree in the order
    /// of [crate::octree::octant::OctantId] (slot 7 first), a
    /// cube when it holds one block, and for each of its own sub octrees
    /// that is not empty, a cube or the quads of its greedy mesh.
    pub fn generate_mesh(&self) -> (r: Option<Vec<MeshPart>>)
        requires
            self.wf(),
        ensures
            r is None <==> self.octree.data is Empty,
            r matches Some(v) ==> v@.len() == mesh_targets(self.octree).len() && forall|k: int|
                0 <= k < v@.len() ==> part_fits(#[trigger] v@[k], mesh_targets(self.octree)[k]),
            r matches Some(v) ==> mesh_covers(*self, v@),
            r matches Some(v) ==> mesh_sound(*self, v@),
    {
        proof {
            vstd::arithmetic::power2::lemma2_to64();
            assert forall|q: Point3<Number>| #[trigger] self.octree.bounds.contains(q) == Self::in_chunk(q) by {}
        }
        match &self.octree.data {
            OctreeData::Empty => None,
            OctreeData::Leaf(_) => {
                let part = render_part(&self.octree);
                let mut v: Vec<MeshPart> = Vec::new();
                v.push(part);
                proof {
                    law_parts_cover(self.octree, v@);
                    assert forall|q: Point3<Number>| Chunk::in_chunk(q) && (#[trigger] self.block_at(q)) is Some
                        implies exists|k: int| 0 <= k < v@.len() && #[trigger] part_contains(v@[k], q) by {
                        assert(self.octree.bounds.contains(q));
                        assert(self.octree.lookup(q) is Some);
                    }
                    assert(mesh_covers(*self, v@));
                    law_parts_sound(self.octree, v@);
                    assert(mesh_sound(*self, v@));
                }
                Some(v)
            },
            OctreeData::Node(children) => {
                let mut parts: Vec<MeshPart> = Vec::new();
                let mut c: usize = 0;
                while c < 8
                    invariant
                        self.wf(),
                        self.octree.data == OctreeData::Node(*children),
                        c <= 8,
                        parts@.len() == targets_upto(children@, c as int).len(),
                        forall|k: int|
                            0 <= k < parts@.len() ==> part_fits(#[trigger] parts@[k], targets_upto(children@, c as int)[k]),
                    decreases 8 - c,
                {
                    let child: &Octree<Block> = &children[7 - c];
                    let ghost before = parts@;
                    let ghost prev = targets_upto(children@, c as int);
                    match &child.data {
                        OctreeData::Empty => {},
                        OctreeData::Leaf(_) => {
                            parts.push(render_part(child));
                        },
                        OctreeData::Node(grand) => {
                            let mut g: usize = 0;
                            while g < 8
                                invariant
                                    child.wf(),
                                    child.height == 7,
                                    child.data == OctreeData::Node(*grand),
                                    g <= 8,
                                    parts@.len() == before.len() + nonempty_upto(grand@, g as int).len(),
                                    forall|k: int|
                                        0 <= k < before.len() ==> parts@[k] == before[k],
                                    forall|k: int|
                                        0 <= k < nonempty_upto(grand@, g as int).len() ==> part_fits(
                                            #[trigger] parts@[before.len() + k],
                                            nonempty_upto(grand@, g as int)[k],
                                        ),
                                decreases 8 - g,
                            {
                                let gc: &Octree<Block> = &grand[7 - g];
                                if !gc.is_empty() {
                                    parts.push(render_part(gc));
                                }
                                g = g + 1;
                            }
                        },
                    }
                    proof {
                        assert(targets_upto(children@, c as int + 1) == prev + child_targets(*children@[7 - c as int]));
                        assert forall|k: int| 0 <= k < parts@.len() implies part_fits(#[trigger] parts@[k], targets_upto(children@, c as int + 1)[k]) by {
                            if k < before.len() {
                                assert(parts@[k] == before[k]);
                            } else {
                                assert(parts@[before.len() + (k - before.len())] == parts@[k]);
                            }
                        }
                    }
                    c = c + 1;
                }
                proof {
                    law_parts_cover(self.octree, parts@);
                    assert forall|q: Point3<Number>| Chunk::in_chunk(q) && (#[trigger] self.block_at(q)) is Some
                        implies exists|k: int| 0 <= k < parts@.len() && #[trigger] part_contains(parts@[k], q) by {
                        assert(self.octree.bounds.contains(q));
                        assert(self.octree.lookup(q) is Some);
                    }
                    assert(mesh_covers(*self, parts@));
                    law_parts_sound(self.octree, parts@);
                    assert(mesh_sound(*self, parts@));
                }
                Some(parts)
            },
        }
    }
}

} // verus!
