//! Reading back the bytes of a chunk gives the chunk.
use vstd::prelude::*;
use vstd::arithmetic::power2::{pow2, lemma2_to64};
use std::sync::Arc;
use crate::point::Point3;
use crate::octree::Octree;
use crate::octree::octree_data::OctreeData;
use crate::chunk::{Block, Chunk, CHUNK_HEIGHT};
use crate::chunk::file_format::{NodeVariant, pow4, slot, pack, packed_byte, var_at, vars_between, vars_upto, blocks_upto, enc_vars, enc_blocks, lemma_upto_all, read_tree, read_trees, extent, children_extent, decodes, parse_blocks, blocks_to_bytes, block_be, lemma_block_be_roundtrip, chunk_bytes, chunk_decodable, decoded_lists, decodes_chunk, lists_readable, octant_order};
use crate::octree::octant::sub_bottom_left;

verus! {

/// The four base-4 digits of a packed byte can be read back.
proof fn lemma_digits(a: int, b: int, c: int, d: int)
    requires
        0 <= a < 4,
        0 <= b < 4,
        0 <= c < 4,
        0 <= d < 4,
    ensures
        0 <= a * 64 + b * 16 + c * 4 + d < 256,
        ((a * 64 + b * 16 + c * 4 + d) / pow4(0)) % 4 == d,
        ((a * 64 + b * 16 + c * 4 + d) / pow4(1)) % 4 == c,
        ((a * 64 + b * 16 + c * 4 + d) / pow4(2)) % 4 == b,
        ((a * 64 + b * 16 + c * 4 + d) / pow4(3)) % 4 == a,
{
    assert(((a * 64 + b * 16 + c * 4 + d) / 4) == a * 16 + b * 4 + c);
    assert(((a * 64 + b * 16 + c * 4 + d) / 16) == a * 4 + b);
    assert(((a * 64 + b * 16 + c * 4 + d) / 64) == a);
}

/// The variant bits of a variant give back the variant.
proof fn lemma_bits_roundtrip(v: NodeVariant)
    ensures
        NodeVariant::from_bits(v.bits() as int) == v,
        v.bits() < 4,
{
}

/// The packed stream of variants, followed by any bytes, holds the variants.
pub proof fn lemma_var_at_pack(vars: Seq<NodeVariant>, rest: Seq<u8>, k: int)
    requires
        0 <= k < vars.len(),
    ensures
        var_at(pack(vars) + rest, k) == vars[k],
{
    let q = k / 4;
    let data = pack(vars) + rest;
    assert(q < pack(vars).len());
    assert(data[q] == packed_byte(vars, q));
    let s0 = slot(vars, 4 * q);
    let s1 = slot(vars, 4 * q + 1);
    let s2 = slot(vars, 4 * q + 2);
    let s3 = slot(vars, 4 * q + 3);
    assert forall|i: int| 0 <= i < 4 implies 0 <= #[trigger] slot(vars, 4 * q + i) < 4 by {
        if 0 <= 4 * q + i < vars.len() {
            lemma_bits_roundtrip(vars[4 * q + i]);
        }
    }
    assert(0 <= slot(vars, 4 * q + 0) < 4);
    assert(4 * q + 0 == 4 * q);
    lemma_digits(s0, s1, s2, s3);
    lemma_bits_roundtrip(vars[k]);
    assert(k == 4 * q + k % 4);
}

/// Lengths of concatenated encodings grow with the number of sub octrees.
pub proof fn lemma_upto_prefix(ch: Seq<Arc<Octree<Block>>>, j: int, m: int)
    requires
        0 <= j <= m,
    ensures
        vars_upto(ch, j).len() <= vars_upto(ch, m).len(),
        blocks_upto(ch, j).len() <= blocks_upto(ch, m).len(),
        forall|i: int| 0 <= i < vars_upto(ch, j).len() ==> #[trigger] vars_upto(ch, m)[i] == vars_upto(ch, j)[i],
        forall|i: int| 0 <= i < blocks_upto(ch, j).len() ==> #[trigger] blocks_upto(ch, m)[i] == blocks_upto(ch, j)[i],
    decreases m - j,
{
    if j < m {
        lemma_upto_prefix(ch, j, m - 1);
    }
}

/// Sub octree `j` is encoded right after sub octrees `0` to `j - 1`.
pub proof fn lemma_upto_child(ch: Seq<Arc<Octree<Block>>>, j: int, m: int)
    requires
        0 <= j < m,
    ensures
        vars_upto(ch, j + 1).len() == vars_upto(ch, j).len() + enc_vars(*ch[j]).len(),
        blocks_upto(ch, j + 1).len() == blocks_upto(ch, j).len() + enc_blocks(*ch[j]).len(),
        vars_upto(ch, j + 1).len() <= vars_upto(ch, m).len(),
        blocks_upto(ch, j + 1).len() <= blocks_upto(ch, m).len(),
        forall|i: int| 0 <= i < enc_vars(*ch[j]).len() ==> #[trigger] vars_upto(ch, m)[vars_upto(ch, j).len() + i] == enc_vars(*ch[j])[i],
        forall|i: int| 0 <= i < enc_blocks(*ch[j]).len() ==> #[trigger] blocks_upto(ch, m)[blocks_upto(ch, j).len() + i] == enc_blocks(*ch[j])[i],
{
    lemma_upto_prefix(ch, j + 1, m);
    assert forall|i: int| 0 <= i < enc_vars(*ch[j]).len() implies #[trigger] vars_upto(ch, m)[vars_upto(ch, j).len() + i] == enc_vars(*ch[j])[i] by {
        assert(vars_upto(ch, m)[vars_upto(ch, j).len() + i] == vars_upto(ch, j + 1)[vars_upto(ch, j).len() + i]);
    }
    assert forall|i: int| 0 <= i < enc_blocks(*ch[j]).len() implies #[trigger] blocks_upto(ch, m)[blocks_upto(ch, j).len() + i] == enc_blocks(*ch[j])[i] by {
        assert(blocks_upto(ch, m)[blocks_upto(ch, j).len() + i] == blocks_upto(ch, j + 1)[blocks_upto(ch, j).len() + i]);
    }
}

/// The encoding of a branch is its kind followed by those of its sub octrees.
pub proof fn lemma_enc_node(t: Octree<Block>)
    requires
        t.data is Node,
        t.data->Node_0.len() == 8,
    ensures
        enc_vars(t) == seq![NodeVariant::Branch] + vars_upto(octant_order(t.data->Node_0@), 8),
        enc_blocks(t) == blocks_upto(octant_order(t.data->Node_0@), 8),
{
    lemma_upto_all(octant_order(t.data->Node_0@));
}

/// Reading one tree of variants from the encoding of an octree stops right after it.
pub proof fn lemma_read_encoded(data: Seq<u8>, k: int, t: Octree<Block>)
    requires
        t.wf(),
        0 <= k,
        k + enc_vars(t).len() <= 4 * data.len(),
        forall|i: int| 0 <= i < enc_vars(t).len() ==> #[trigger] var_at(data, k + i) == enc_vars(t)[i],
    ensures
        read_tree(data, k) == Some(k + enc_vars(t).len()),
        enc_vars(t).len() >= 1,
    decreases t.height, 1nat,
{
    match t.data {
        OctreeData::Node(ch) => {
            lemma_enc_node(t);
            assert(var_at(data, k + 0) == enc_vars(t)[0]);
            lemma_read_children(data, k, t, 0);
        },
        _ => {
            assert(var_at(data, k + 0) == enc_vars(t)[0]);
        },
    }
}

/// Reading the sub octrees of an encoded branch from the `j`-th one on.
pub proof fn lemma_read_children(data: Seq<u8>, k: int, t: Octree<Block>, j: int)
    requires
        t.wf(),
        t.data is Node,
        0 <= j <= 8,
        0 <= k,
        k + enc_vars(t).len() <= 4 * data.len(),
        forall|i: int| 0 <= i < enc_vars(t).len() ==> #[trigger] var_at(data, k + i) == enc_vars(t)[i],
    ensures
        read_trees(data, k + 1 + vars_upto(octant_order(t.data->Node_0@), j).len(), (8 - j) as nat) == Some(k + enc_vars(t).len()),
    decreases t.height, 0nat, 8 - j,
{
    let ch = octant_order(t.data->Node_0@);
    lemma_enc_node(t);
    if j < 8 {
        lemma_upto_child(ch, j, 8);
        let c = *ch[j];
        let start = k + 1 + vars_upto(ch, j).len();
        assert forall|i: int| 0 <= i < enc_vars(c).len() implies #[trigger] var_at(data, start + i) == enc_vars(c)[i] by {
            assert(var_at(data, k + (1 + vars_upto(ch, j).len() + i)) == enc_vars(t)[1 + vars_upto(ch, j).len() + i]);
            assert(enc_vars(t)[1 + vars_upto(ch, j).len() + i] == vars_upto(ch, 8)[vars_upto(ch, j).len() + i]);
        }
        lemma_read_encoded(data, start, c);
        lemma_read_children(data, k, t, j + 1);
        assert(start + enc_vars(c).len() == k + 1 + vars_upto(ch, j + 1).len());
    } else {
        assert(k + 1 + vars_upto(ch, 8).len() == k + enc_vars(t).len());
    }
}

/// Rebuilding from the encoding of an octree gives the octree and stops right after its encoding.
pub proof fn lemma_decode_encoded(vs: Seq<NodeVariant>, bs: Seq<Block>, vi: int, bi: int, t: Octree<Block>)
    requires
        t.wf(),
        0 <= vi,
        0 <= bi,
        vi + enc_vars(t).len() <= vs.len(),
        bi + enc_blocks(t).len() <= bs.len(),
        forall|i: int| 0 <= i < enc_vars(t).len() ==> #[trigger] vs[vi + i] == enc_vars(t)[i],
        forall|i: int| 0 <= i < enc_blocks(t).len() ==> #[trigger] bs[bi + i] == enc_blocks(t)[i],
    ensures
        extent(vs, bs, vi, bi, t.height as nat) == Some((vi + enc_vars(t).len(), bi + enc_blocks(t).len())),
        decodes(vs, bs, vi, bi, t.bounds.bottom_left, t.height as nat, t),
    decreases t.height, 1nat,
{
    assert(vs[vi + 0] == enc_vars(t)[0]);
    lemma2_to64();
    crate::octree::octant_dimensions::lemma_pow2_monotone(t.height as nat, 15);
    match t.data {
        OctreeData::Leaf(e) => {
            assert(bs[bi + 0] == enc_blocks(t)[0]);
        },
        OctreeData::Node(ch) => {
            lemma_enc_node(t);
            crate::octree::lemma_halving(t.height as nat);
            lemma_decode_children(vs, bs, vi, bi, t, 8);
            assert forall|k: int| #![trigger children_extent(vs, bs, vi + 1, bi, (t.height - 1) as nat, k as nat)] 0 <= k < 8 implies match children_extent(vs, bs, vi + 1, bi, (t.height - 1) as nat, k as nat) {
                Some(p) => decodes(vs, bs, p.0, p.1, sub_bottom_left(t.bounds.bottom_left, pow2((t.height - 1) as nat) as int, k), (t.height - 1) as nat, *octant_order(ch@)[k]),
                None => false,
            } by {
                lemma_decode_children(vs, bs, vi, bi, t, k);
                lemma_decode_children(vs, bs, vi, bi, t, k + 1);
            }
        },
        _ => {},
    }
}

/// Rebuilding the first `j` sub octrees of an encoded branch.
pub proof fn lemma_decode_children(vs: Seq<NodeVariant>, bs: Seq<Block>, vi: int, bi: int, t: Octree<Block>, j: int)
    requires
        t.wf(),
        t.data is Node,
        0 <= j <= 8,
        0 <= vi,
        0 <= bi,
        vi + enc_vars(t).len() <= vs.len(),
        bi + enc_blocks(t).len() <= bs.len(),
        forall|i: int| 0 <= i < enc_vars(t).len() ==> #[trigger] vs[vi + i] == enc_vars(t)[i],
        forall|i: int| 0 <= i < enc_blocks(t).len() ==> #[trigger] bs[bi + i] == enc_blocks(t)[i],
    ensures
        children_extent(vs, bs, vi + 1, bi, (t.height - 1) as nat, j as nat) == Some(
            (vi + 1 + vars_upto(octant_order(t.data->Node_0@), j).len(), bi + blocks_upto(octant_order(t.data->Node_0@), j).len()),
        ),
        j > 0 ==> decodes(vs, bs, vi + 1 + vars_upto(octant_order(t.data->Node_0@), j - 1).len(), bi + blocks_upto(octant_order(t.data->Node_0@), j - 1).len(),
            sub_bottom_left(t.bounds.bottom_left, pow2((t.height - 1) as nat) as int, j - 1), (t.height - 1) as nat, *octant_order(t.data->Node_0@)[j - 1]),
    decreases t.height, 0nat, j,
{
    let ch = octant_order(t.data->Node_0@);
    lemma_enc_node(t);
    lemma2_to64();
    crate::octree::octant_dimensions::lemma_pow2_monotone(t.height as nat, 15);
    crate::octree::lemma_halving(t.height as nat);
    if j > 0 {
        lemma_decode_children(vs, bs, vi, bi, t, j - 1);
        lemma_upto_child(ch, j - 1, 8);
        let c = *ch[j - 1];
        let v0 = vi + 1 + vars_upto(ch, j - 1).len();
        let b0 = bi + blocks_upto(ch, j - 1).len();
        assert forall|i: int| 0 <= i < enc_vars(c).len() implies #[trigger] vs[v0 + i] == enc_vars(c)[i] by {
            assert(vs[vi + (1 + vars_upto(ch, j - 1).len() + i)] == enc_vars(t)[1 + vars_upto(ch, j - 1).len() + i]);
            assert(enc_vars(t)[1 + vars_upto(ch, j - 1).len() + i] == vars_upto(ch, 8)[vars_upto(ch, j - 1).len() + i]);
        }
        assert forall|i: int| 0 <= i < enc_blocks(c).len() implies #[trigger] bs[b0 + i] == enc_blocks(c)[i] by {
            assert(bs[bi + (blocks_upto(ch, j - 1).len() + i)] == enc_blocks(t)[blocks_upto(ch, j - 1).len() + i]);
        }
        lemma_decode_encoded(vs, bs, v0, b0, c);
        assert(c == *t.data->Node_0@[8 - j]);
        assert(c.bounds == t.bounds.sub_dims(8 - j));
    }
}

/// The rebuilt octree is unique.
pub proof fn lemma_decodes_unique(vs: Seq<NodeVariant>, bs: Seq<Block>, vi: int, bi: int, pos: Point3<crate::octree::octant_dimensions::Number>, h: nat, a: Octree<Block>, b: Octree<Block>)
    requires
        decodes(vs, bs, vi, bi, pos, h, a),
        decodes(vs, bs, vi, bi, pos, h, b),
    ensures
        a.same_tree(b),
    decreases h,
{
    if vs[vi] == NodeVariant::Branch {
        let ca = a.data->Node_0;
        let cb = b.data->Node_0;
        assert forall|k: int| 0 <= k < ca.len() implies (#[trigger] ca@[k]).same_tree(*cb@[k]) by {
            let j = 7 - k;
            assert(octant_order(ca@)[j] == ca@[k]);
            assert(octant_order(cb@)[j] == cb@[k]);
            let p = children_extent(vs, bs, vi + 1, bi, (h - 1) as nat, j as nat)->0;
            lemma_decodes_unique(vs, bs, p.0, p.1, sub_bottom_left(pos, pow2((h - 1) as nat) as int, j), (h - 1) as nat, *ca@[k], *cb@[k]);
        }
    }
}

/// Reading back the big endian bytes of blocks gives the blocks.
pub proof fn lemma_parse_blocks(bs: Seq<Block>)
    ensures
        parse_blocks(blocks_to_bytes(bs)) == bs,
{
    let s = blocks_to_bytes(bs);
    assert forall|i: int| 0 <= i < bs.len() implies #[trigger] parse_blocks(s)[i] == bs[i] by {
        assert(s.subrange(4 * i, 4 * i + 4) =~= block_be(bs[i])) by {
            assert forall|j: int| 0 <= j < 4 implies s.subrange(4 * i, 4 * i + 4)[j] == block_be(bs[i])[j] by {
                assert((4 * i + j) / 4 == i);
                assert((4 * i + j) % 4 == j);
            }
        }
        lemma_block_be_roundtrip(bs[i]);
    }
    assert(parse_blocks(s) =~= bs);
}

/// The bytes of a well formed chunk can be read back.
pub proof fn law_chunk_bytes_decodable(c: Chunk)
    requires
        c.wf(),
    ensures
        chunk_decodable(chunk_bytes(c)),
        decoded_lists(chunk_bytes(c)).0 == enc_vars(c.octree),
        decoded_lists(chunk_bytes(c)).1 == enc_blocks(c.octree),
{
    let ev = enc_vars(c.octree);
    let eb = enc_blocks(c.octree);
    let data = chunk_bytes(c);
    let bb = blocks_to_bytes(eb);
    let n = ev.len() as int;
    assert(data == pack(ev) + bb);
    assert forall|i: int| 0 <= i < n implies #[trigger] var_at(data, 0 + i) == ev[i] by {
        lemma_var_at_pack(ev, bb, i);
    }
    lemma_read_encoded(data, 0, c.octree);
    assert(read_trees(data, n, 0) == Some(n));
    assert(read_trees(data, 0, 1) == Some(n));
    assert(vars_between(data, 0, n) =~= ev) by {
        assert forall|i: int| 0 <= i < n implies #[trigger] vars_between(data, 0, n)[i] == ev[i] by {
            lemma_var_at_pack(ev, bb, i);
        }
    }
    assert((n + 3) / 4 == pack(ev).len());
    assert(data.subrange((n + 3) / 4, data.len() as int) =~= bb);
    lemma_parse_blocks(eb);
    lemma_decode_encoded(ev, eb, 0, 0, c.octree);
}

/// Reading back the bytes of a well formed chunk gives the chunk at the
/// position it is read at: node for node the same octree.
pub proof fn law_chunk_bytes_roundtrip(c: Chunk, pos: Point3<i32>, r: Chunk)
    requires
        c.wf(),
        decodes_chunk(chunk_bytes(c), pos, r),
    ensures
        r.pos == pos,
        r.octree.same_tree(c.octree),
{
    law_chunk_bytes_decodable(c);
    let ev = enc_vars(c.octree);
    let eb = enc_blocks(c.octree);
    lemma_decode_encoded(ev, eb, 0, 0, c.octree);
    lemma_decodes_unique(ev, eb, 0, 0, crate::chunk::origin(), CHUNK_HEIGHT as nat, r.octree, c.octree);
}


/// Where the tree of node kinds that starts at index `k` of `vs` ends: after
/// a `Branch` come eight sub trees, any other kind is a tree of one node.
/// `None` when the tree runs past the end of `vs`.
pub open spec fn tree_end(vs: Seq<NodeVariant>, k: int) -> Option<int>
    decreases vs.len() - k, 0nat, 0nat,
{
    if k < 0 || k >= vs.len() {
        None
    } else if vs[k] == NodeVariant::Branch {
        trees_end(vs, k + 1, 8)
    } else {
        Some(k + 1)
    }
}

/// Where `n` consecutive trees of node kinds starting at index `k` of `vs` end.
pub open spec fn trees_end(vs: Seq<NodeVariant>, k: int, n: nat) -> Option<int>
    decreases vs.len() - k, n, 1nat,
{
    if n == 0 {
        Some(k)
    } else {
        match tree_end(vs, k) {
            Some(a) => if k < a <= vs.len() {
                trees_end(vs, a, (n - 1) as nat)
            } else {
                None
            },
            None => None,
        }
    }
}

proof fn lemma_read_tree_agrees(vs: Seq<NodeVariant>, data: Seq<u8>, k: int)
    requires
        vs.len() <= 4 * data.len(),
        forall|i: int| 0 <= i < vs.len() ==> #[trigger] var_at(data, i) == vs[i],
        tree_end(vs, k) is Some,
    ensures
        read_tree(data, k) == tree_end(vs, k),
    decreases vs.len() - k, 0nat, 0nat,
{
    if vs[k] == NodeVariant::Branch {
        lemma_read_trees_agrees(vs, data, k + 1, 8);
    }
}

proof fn lemma_read_trees_agrees(vs: Seq<NodeVariant>, data: Seq<u8>, k: int, n: nat)
    requires
        vs.len() <= 4 * data.len(),
        forall|i: int| 0 <= i < vs.len() ==> #[trigger] var_at(data, i) == vs[i],
        trees_end(vs, k, n) is Some,
    ensures
        read_trees(data, k, n) == trees_end(vs, k, n),
    decreases vs.len() - k, n, 1nat,
{
    if n > 0 {
        lemma_read_tree_agrees(vs, data, k);
        let a = tree_end(vs, k)->0;
        lemma_read_trees_agrees(vs, data, a, (n - 1) as nat);
    }
}

/// Node kinds that form one tree and any blocks, written as bytes, are read
/// back as the same node kinds and blocks.
pub proof fn law_lists_roundtrip(vs: Seq<NodeVariant>, bs: Seq<Block>)
    requires
        trees_end(vs, 0, 1) == Some(vs.len() as int),
    ensures
        lists_readable(pack(vs) + blocks_to_bytes(bs)),
        decoded_lists(pack(vs) + blocks_to_bytes(bs)).0 == vs,
        decoded_lists(pack(vs) + blocks_to_bytes(bs)).1 == bs,
{
    let bb = blocks_to_bytes(bs);
    let data = pack(vs) + bb;
    let n = vs.len() as int;
    assert forall|i: int| 0 <= i < vs.len() implies #[trigger] var_at(data, i) == vs[i] by {
        lemma_var_at_pack(vs, bb, i);
    }
    lemma_read_trees_agrees(vs, data, 0, 1);
    assert(read_trees(data, 0, 1) == Some(n));
    assert(vars_between(data, 0, n) =~= vs) by {
        assert forall|i: int| 0 <= i < n implies #[trigger] vars_between(data, 0, n)[i] == vs[i] by {
            lemma_var_at_pack(vs, bb, i);
        }
    }
    assert((n + 3) / 4 == pack(vs).len());
    assert(data.subrange((n + 3) / 4, data.len() as int) =~= bb);
    lemma_parse_blocks(bs);
}

} // verus!
