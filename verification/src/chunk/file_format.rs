//! The binary format of a chunk: the kinds of the octree's nodes in pre
//! order, packed four to a byte (the first in the two most significant bits),
//! followed by the elements of its leaves, four big endian bytes each.
use vstd::prelude::*;
use crate::point::Point3;
use crate::octree::Octree;
use crate::octree::octree_data::OctreeData;
use crate::chunk::{Block, Chunk, CHUNK_HEIGHT};
use crate::octree::octant::{OctantId, sub_bottom_left};
use crate::octree::octant_dimensions::{OctantDimensions, Number, pow2_u16};
use vstd::arithmetic::power2::{pow2, lemma2_to64};
use std::sync::Arc;

verus! {

/// The kind of an encoded octree node.
#[derive(Clone, Copy, PartialEq, Eq, Structural, Debug)]
pub enum NodeVariant {
    Error,
    Empty,
    Leaf,
    Branch,
}

impl NodeVariant {
    /// The two bits that encode the variant.
    pub open spec fn bits(self) -> u8 {
        match self {
            NodeVariant::Error => 0,
            NodeVariant::Empty => 1,
            NodeVariant::Leaf => 2,
            NodeVariant::Branch => 3,
        }
    }

    /// The variant encoded by the two bits `b`.
    pub open spec fn from_bits(b: int) -> NodeVariant {
        if b == 0 {
            NodeVariant::Error
        } else if b == 1 {
            NodeVariant::Empty
        } else if b == 2 {
            NodeVariant::Leaf
        } else {
            NodeVariant::Branch
        }
    }
}

pub fn variant_to_bits(var: &NodeVariant) -> (r: u8)
    ensures
        r == var.bits(),
        r < 4,
{
    match var {
        NodeVariant::Error => 0,
        NodeVariant::Empty => 1,
        NodeVariant::Leaf => 2,
        NodeVariant::Branch => 3,
    }
}

pub fn bits_to_variant(bits: u8) -> (r: NodeVariant)
    requires
        bits < 4,
    ensures
        r == NodeVariant::from_bits(bits as int),
        r.bits() == bits,
{
    match bits {
        0 => NodeVariant::Error,
        1 => NodeVariant::Empty,
        2 => NodeVariant::Leaf,
        _ => NodeVariant::Branch,
    }
}

/// The bits of the variant at index `k` of `vars`, or 0 past its end.
pub open spec fn slot(vars: Seq<NodeVariant>, k: int) -> int {
    if 0 <= k < vars.len() {
        vars[k].bits() as int
    } else {
        0
    }
}

/// The byte that packs variants `4k` to `4k + 3`.
pub open spec fn packed_byte(vars: Seq<NodeVariant>, k: int) -> u8 {
    (slot(vars, 4 * k) * 64 + slot(vars, 4 * k + 1) * 16 + slot(vars, 4 * k + 2) * 4 + slot(vars, 4 * k
        + 3)) as u8
}

/// The variants packed four to a byte, the last byte padded with zero bits.
pub open spec fn pack(vars: Seq<NodeVariant>) -> Seq<u8> {
    Seq::new(((vars.len() + 3) / 4) as nat, |k: int| packed_byte(vars, k))
}

pub fn variants_to_bytes(vars: &Vec<NodeVariant>) -> (r: Vec<u8>)
    ensures
        r@ == pack(vars@),
{
    let mut out: Vec<u8> = Vec::new();
    let n = vars.len();
    let nbytes = n / 4 + if n % 4 == 0 { 0 } else { 1 };
    let mut k: usize = 0;
    while k < nbytes
        invariant
            n == vars.len(),
            nbytes == (n + 3) / 4,
            k <= nbytes,
            out.len() == k,
            forall|j: int| 0 <= j < out.len() ==> #[trigger] out@[j] == packed_byte(vars@, j),
        decreases nbytes - k,
    {
        let start = 4 * k;
        let mut byte: u8 = 0;
        let mut i: usize = 0;
        while i < 4
            invariant
                n == vars.len(),
                start == 4 * k,
                start <= n,
                i <= 4,
                byte as int == (if i >= 1 { slot(vars@, start as int) * (if i == 1 { 1int } else if i == 2 { 4 } else if i == 3 { 16 } else { 64 }) } else { 0 })
                    + (if i >= 2 { slot(vars@, start + 1) * (if i == 2 { 1int } else if i == 3 { 4 } else { 16 }) } else { 0 })
                    + (if i >= 3 { slot(vars@, start + 2) * (if i == 3 { 1int } else { 4 }) } else { 0 })
                    + (if i >= 4 { slot(vars@, start + 3) } else { 0 }),
            decreases 4 - i,
        {
            let bits: u8 = if i < n - start {
                variant_to_bits(&vars[start + i])
            } else {
                0
            };
            byte = byte * 4 + bits;
            i = i + 1;
        }
        out.push(byte);
        k = k + 1;
    }
    assert(out@ =~= pack(vars@));
    out
}

/// The four big endian bytes of a block.
pub open spec fn block_be(b: Block) -> Seq<u8> {
    seq![(b / 16777216) as u8, (b / 65536 % 256) as u8, (b / 256 % 256) as u8, (b % 256) as u8]
}

/// The block whose big endian bytes are `s`.
pub open spec fn be_value(s: Seq<u8>) -> int {
    s[0] * 16777216 + s[1] * 65536 + s[2] * 256 + s[3]
}

pub fn block_to_bytes(block: Block) -> (r: [u8; 4])
    ensures
        r@ == block_be(block),
{
    let r = [
        (block / 16777216) as u8,
        (block / 65536 % 256) as u8,
        (block / 256 % 256) as u8,
        (block % 256) as u8,
    ];
    assert(r@ =~= block_be(block));
    r
}

pub fn bytes_to_block(bytes: &[u8]) -> (r: Block)
    requires
        bytes@.len() == 4,
    ensures
        r == be_value(bytes@),
{
    let b0 = bytes[0] as u32;
    let b1 = bytes[1] as u32;
    let b2 = bytes[2] as u32;
    let b3 = bytes[3] as u32;
    b0 * 16777216 + b1 * 65536 + b2 * 256 + b3
}

/// Reading back the bytes of a block gives the block.
pub proof fn lemma_block_be_roundtrip(b: Block)
    ensures
        be_value(block_be(b)) == b,
        block_be(b).len() == 4,
{
    assert(be_value(block_be(b)) == b) by (nonlinear_arith)
        requires
            block_be(b) =~= seq![(b / 16777216) as u8, (b / 65536 % 256) as u8, (b / 256 % 256) as u8, (b % 256) as u8],
    {
    }
}

/// The big endian bytes of each block, in order.
pub open spec fn blocks_to_bytes(blocks: Seq<Block>) -> Seq<u8> {
    Seq::new(4 * blocks.len(), |i: int| block_be(blocks[i / 4])[i % 4])
}

pub fn chunk_lists_to_bytes(nodes: &Vec<NodeVariant>, blocks: &Vec<Block>) -> (r: Vec<u8>)
    ensures
        r@ == pack(nodes@) + blocks_to_bytes(blocks@),
{
    let mut bytes = variants_to_bytes(nodes);
    let ghost head = bytes@;
    let mut i: usize = 0;
    while i < blocks.len()
        invariant
            head == pack(nodes@),
            i <= blocks.len(),
            bytes@ =~= head + blocks_to_bytes(blocks@.take(i as int)),
        decreases blocks.len() - i,
    {
        let b = block_to_bytes(blocks[i]);
        let ghost before = bytes@;
        let mut j: usize = 0;
        while j < 4
            invariant
                j <= 4,
                bytes@ == before + b@.take(j as int),
            decreases 4 - j,
        {
            bytes.push(b[j]);
            j = j + 1;
            assert(bytes@ =~= before + b@.take(j as int));
        }
        i = i + 1;
        assert(bytes@ =~= head + blocks_to_bytes(blocks@.take(i as int))) by {
            assert(b@.take(4) =~= b@);
            assert forall|k: int| 0 <= k < 4 * i implies #[trigger] blocks_to_bytes(blocks@.take(i as int))[k] == (head + blocks_to_bytes(blocks@.take(i as int)))[head.len() + k] by {}
        }
    }
    assert(blocks@.take(blocks.len() as int) =~= blocks@);
    bytes
}

/// The sub octrees of a branch in the order of [OctantId], from
/// `LowLowLow` (slot 7) to `HighHighHigh` (slot 0).
pub open spec fn octant_order(ch: Seq<Arc<Octree<Block>>>) -> Seq<Arc<Octree<Block>>> {
    Seq::new(ch.len(), |k: int| ch[ch.len() - 1 - k])
}

/// The kinds of the octree's nodes in pre order, the sub octrees of a
/// branch in the order of [OctantId] (slot 7 first).
pub open spec fn enc_vars(t: Octree<Block>) -> Seq<NodeVariant>
    decreases t,
{
    match t.data {
        OctreeData::Empty => seq![NodeVariant::Empty],
        OctreeData::Leaf(_) => seq![NodeVariant::Leaf],
        OctreeData::Node(ch) => if ch.len() == 8 {
            seq![NodeVariant::Branch] + enc_vars(*ch@[7]) + enc_vars(*ch@[6]) + enc_vars(*ch@[5])
                + enc_vars(*ch@[4]) + enc_vars(*ch@[3]) + enc_vars(*ch@[2]) + enc_vars(*ch@[1])
                + enc_vars(*ch@[0])
        } else {
            seq![NodeVariant::Branch]
        },
    }
}

/// The elements of the octree's leaves in pre order, in the order of [enc_vars].
pub open spec fn enc_blocks(t: Octree<Block>) -> Seq<Block>
    decreases t,
{
    match t.data {
        OctreeData::Empty => Seq::empty(),
        OctreeData::Leaf(e) => seq![e],
        OctreeData::Node(ch) => if ch.len() == 8 {
            enc_blocks(*ch@[7]) + enc_blocks(*ch@[6]) + enc_blocks(*ch@[5]) + enc_blocks(*ch@[4])
                + enc_blocks(*ch@[3]) + enc_blocks(*ch@[2]) + enc_blocks(*ch@[1]) + enc_blocks(
                *ch@[0],
            )
        } else {
            Seq::empty()
        },
    }
}

/// The encoded kinds of sub octrees `ch[0]` to `ch[j - 1]`, concatenated.
pub open spec fn vars_upto(ch: Seq<Arc<Octree<Block>>>, j: int) -> Seq<NodeVariant>
    decreases j,
{
    if j <= 0 {
        Seq::empty()
    } else {
        vars_upto(ch, j - 1) + enc_vars(*ch[j - 1])
    }
}

/// The encoded elements of sub octrees `ch[0]` to `ch[j - 1]`, concatenated.
pub open spec fn blocks_upto(ch: Seq<Arc<Octree<Block>>>, j: int) -> Seq<Block>
    decreases j,
{
    if j <= 0 {
        Seq::empty()
    } else {
        blocks_upto(ch, j - 1) + enc_blocks(*ch[j - 1])
    }
}

pub proof fn lemma_upto_all(ch: Seq<Arc<Octree<Block>>>)
    ensures
        seq![NodeVariant::Branch] + vars_upto(ch, 8) == seq![NodeVariant::Branch] + enc_vars(*ch[0]) + enc_vars(*ch[1]) + enc_vars(*ch[2])
                + enc_vars(*ch[3]) + enc_vars(*ch[4]) + enc_vars(*ch[5]) + enc_vars(*ch[6])
                + enc_vars(*ch[7]),
        blocks_upto(ch, 8) == enc_blocks(*ch[0]) + enc_blocks(*ch[1]) + enc_blocks(*ch[2]) + enc_blocks(*ch[3])
                + enc_blocks(*ch[4]) + enc_blocks(*ch[5]) + enc_blocks(*ch[6]) + enc_blocks(*ch[7]),
{
    reveal_with_fuel(vars_upto, 9);
    reveal_with_fuel(blocks_upto, 9);
    assert(vars_upto(ch, 0) == Seq::<NodeVariant>::empty());
    assert(blocks_upto(ch, 0) == Seq::<Block>::empty());
    assert(seq![NodeVariant::Branch] + vars_upto(ch, 8) =~= seq![NodeVariant::Branch] + enc_vars(*ch[0]) + enc_vars(*ch[1]) + enc_vars(*ch[2])
                + enc_vars(*ch[3]) + enc_vars(*ch[4]) + enc_vars(*ch[5]) + enc_vars(*ch[6])
                + enc_vars(*ch[7]));
    assert(blocks_upto(ch, 8) =~= enc_blocks(*ch[0]) + enc_blocks(*ch[1]) + enc_blocks(*ch[2]) + enc_blocks(*ch[3])
                + enc_blocks(*ch[4]) + enc_blocks(*ch[5]) + enc_blocks(*ch[6]) + enc_blocks(*ch[7]));
}

/// Appends the encoding of the octree to the two lists.
fn translate(t: &Octree<Block>, nodes: &mut Vec<NodeVariant>, elements: &mut Vec<Block>)
    requires
        t.wf(),
    ensures
        final(nodes)@ == old(nodes)@ + enc_vars(*t),
        final(elements)@ == old(elements)@ + enc_blocks(*t),
    decreases t.height,
{
    match &t.data {
        OctreeData::Empty => {
            nodes.push(NodeVariant::Empty);
            assert(elements@ =~= old(elements)@ + enc_blocks(*t));
        },
        OctreeData::Leaf(elem) => {
            nodes.push(NodeVariant::Leaf);
            elements.push(*elem);
        },
        OctreeData::Node(children) => {
            nodes.push(NodeVariant::Branch);
            let ghost n0 = nodes@;
            let ghost e0 = elements@;
            let mut j: usize = 0;
            while j < 8
                invariant
                    t.wf(),
                    t.data == OctreeData::Node(*children),
                    children.len() == 8,
                    j <= 8,
                    nodes@ == n0 + vars_upto(octant_order(children@), j as int),
                    elements@ == e0 + blocks_upto(octant_order(children@), j as int),
                decreases 8 - j,
            {
                translate(&children[7 - j], nodes, elements);
                proof {
                    assert(octant_order(children@)[j as int] == children@[7 - j]);
                    assert(nodes@ =~= n0 + vars_upto(octant_order(children@), j as int + 1));
                    assert(elements@ =~= e0 + blocks_upto(octant_order(children@), j as int + 1));
                }
                j = j + 1;
            }
            proof {
                lemma_upto_all(octant_order(children@));
                assert(nodes@ =~= old(nodes)@ + enc_vars(*t));
                assert(elements@ =~= old(elements)@ + enc_blocks(*t));
            }
        },
    }
}

/// The encoding of a chunk's octree as described in the module documentation.
pub open spec fn chunk_bytes(chunk: Chunk) -> Seq<u8> {
    pack(enc_vars(chunk.octree)) + blocks_to_bytes(enc_blocks(chunk.octree))
}

pub fn chunk_to_bytes(chunk: &Chunk) -> (r: Vec<u8>)
    requires
        chunk.wf(),
    ensures
        r@ == chunk_bytes(*chunk),
{
    let mut vars: Vec<NodeVariant> = Vec::new();
    let mut blocks: Vec<Block> = Vec::new();
    translate(&chunk.octree, &mut vars, &mut blocks);
    assert(vars@ =~= enc_vars(chunk.octree));
    assert(blocks@ =~= enc_blocks(chunk.octree));
    chunk_lists_to_bytes(&vars, &blocks)
}

/// Four to the power `e`, for `e` from 0 to 3.
pub open spec fn pow4(e: int) -> int {
    if e == 0 {
        1
    } else if e == 1 {
        4
    } else if e == 2 {
        16
    } else {
        64
    }
}

/// The variant at index `k` of the packed stream of variants in `data`.
pub open spec fn var_at(data: Seq<u8>, k: int) -> NodeVariant {
    NodeVariant::from_bits((data[k / 4] as int / pow4(3 - k % 4)) % 4)
}

/// The variants at indices `k` to `e - 1` of the packed stream in `data`.
pub open spec fn vars_between(data: Seq<u8>, k: int, e: int) -> Seq<NodeVariant> {
    Seq::new((e - k) as nat, |i: int| var_at(data, k + i))
}

/// Extracting the two bits at a position of a byte.
pub proof fn lemma_extract_bits(b: u8, s: u8)
    requires
        s < 4,
    ensures
        ((b >> (2 * (3 - s)) as u8) & 3u8) as int == (b as int / pow4(3 - s as int)) % 4,
        ((b >> (2 * (3 - s)) as u8) & 3u8) < 4,
{
    if s == 0 {
        assert(((b >> 6u8) & 3u8) as int == (b as int / 64) % 4 && ((b >> 6u8) & 3u8) < 4) by (bit_vector);
    } else if s == 1 {
        assert(((b >> 4u8) & 3u8) as int == (b as int / 16) % 4 && ((b >> 4u8) & 3u8) < 4) by (bit_vector);
    } else if s == 2 {
        assert(((b >> 2u8) & 3u8) as int == (b as int / 4) % 4 && ((b >> 2u8) & 3u8) < 4) by (bit_vector);
    } else {
        assert(((b >> 0u8) & 3u8) as int == (b as int / 1) % 4 && ((b >> 0u8) & 3u8) < 4) by (bit_vector);
    }
}

/// Reads the packed stream of variants in a byte vector.
pub struct VarIter<'a> {
    pub byte: usize,
    pub shift: u8,
    pub data: &'a Vec<u8>,
}

impl<'a> VarIter<'a> {
    pub open spec fn wf(self) -> bool {
        &&& self.shift <= 4
        &&& self.shift == 0 ==> self.byte == 0
        &&& self.shift != 0 ==> self.byte < self.data.len()
    }

    /// The number of variants read so far.
    pub open spec fn read_count(self) -> int {
        self.byte * 4 + self.shift
    }

    pub fn new(data: &'a Vec<u8>) -> (r: Self)
        ensures
            r.wf(),
            r.read_count() == 0,
            r.data == data,
    {
        VarIter { byte: 0, shift: 0, data }
    }

    /// The bytes after the last byte that variants were read from.
    pub fn remnants(self) -> (r: Vec<u8>)
        requires
            self.wf(),
        ensures
            r@ == self.data@.subrange((self.read_count() + 3) / 4, self.data@.len() as int),
    {
        let start = if self.shift == 0 {
            self.byte
        } else {
            self.byte + 1
        };
        let len = self.data.len();
        let mut out: Vec<u8> = Vec::new();
        let mut i = start;
        while i < len
            invariant
                start <= len,
                len == self.data.len(),
                start <= i <= len,
                out@ == self.data@.subrange(start as int, i as int),
            decreases len - i,
        {
            out.push(self.data[i]);
            i = i + 1;
            assert(out@ =~= self.data@.subrange(start as int, i as int));
        }
        out
    }

    /// The next variant of the stream; nothing from an empty stream. A non
    /// empty stream must not be read past its last variant.
    pub fn next(&mut self) -> (r: Option<NodeVariant>)
        requires
            old(self).wf(),
            old(self).data.len() == 0 || old(self).read_count() < 4 * old(self).data.len(),
        ensures
            final(self).wf(),
            final(self).data == old(self).data,
            old(self).data.len() == 0 ==> r is None && *final(self) == *old(self),
            old(self).data.len() > 0 ==> r == Some(var_at(old(self).data@, old(self).read_count()))
                && final(self).read_count() == old(self).read_count() + 1,
    {
        if self.byte >= self.data.len() {
            return None;
        }
        if self.shift >= 4 {
            self.shift = 0;
            self.byte = self.byte + 1;
        }
        let curr_byte = self.data[self.byte];
        proof {
            lemma_extract_bits(curr_byte, self.shift);
        }
        let bits = (curr_byte >> (2 * (3 - self.shift))) & 0x03;
        self.shift = self.shift + 1;
        Some(bits_to_variant(bits))
    }
}

/// Where the reading of one tree of variants starting at index `k` of the
/// stream in `data` ends: after a `Branch` come the eight sub trees. `None`
/// when the reading would run past the end of the stream.
pub open spec fn read_tree(data: Seq<u8>, k: int) -> Option<int>
    decreases 4 * data.len() - k, 0nat, 0nat,
{
    if k < 0 || k >= 4 * data.len() {
        None
    } else if var_at(data, k) == NodeVariant::Branch {
        read_trees(data, k + 1, 8)
    } else {
        Some(k + 1)
    }
}

/// Where the reading of `n` consecutive trees starting at index `k` ends.
pub open spec fn read_trees(data: Seq<u8>, k: int, n: nat) -> Option<int>
    decreases 4 * data.len() - k, n, 1nat,
{
    if n == 0 {
        Some(k)
    } else {
        match read_tree(data, k) {
            Some(a) => if k < a <= 4 * data.len() {
                read_trees(data, a, (n - 1) as nat)
            } else {
                None
            },
            None => None,
        }
    }
}

/// Reading trees moves forward and stays inside the stream.
pub proof fn lemma_read_trees_bounds(data: Seq<u8>, k: int, n: nat)
    requires
        read_trees(data, k, n) is Some,
    ensures
        k <= read_trees(data, k, n)->0 <= 4 * data.len() || (n == 0 && read_trees(data, k, n)->0 == k),
        n > 0 ==> k < read_trees(data, k, n)->0 <= 4 * data.len(),
    decreases 4 * data.len() - k, n, 1nat,
{
    if n > 0 {
        let a = read_tree(data, k)->0;
        if n > 1 {
            lemma_read_trees_bounds(data, a, (n - 1) as nat);
        }
    }
}

/// Reads `num_to_read` trees of variants from the stream.
fn count_vars(iter: &mut VarIter, num_to_read: u8) -> (r: Vec<NodeVariant>)
    requires
        old(iter).wf(),
        num_to_read >= 1,
        read_trees(old(iter).data@, old(iter).read_count(), num_to_read as nat) is Some,
    ensures
        final(iter).wf(),
        final(iter).data == old(iter).data,
        final(iter).read_count() == read_trees(old(iter).data@, old(iter).read_count(), num_to_read as nat)->0,
        r@ == vars_between(old(iter).data@, old(iter).read_count(), final(iter).read_count()),
    decreases 4 * old(iter).data.len() - old(iter).read_count(), num_to_read,
{
    let ghost data = iter.data@;
    let ghost d0 = iter.data;
    let ghost k = iter.read_count();
    let ghost end = read_trees(data, k, num_to_read as nat)->0;
    let ghost after_first = read_tree(data, k)->0;
    proof {
        lemma_read_trees_bounds(data, k, num_to_read as nat);
    }
    let first = iter.next().unwrap();
    let mut accum: Vec<NodeVariant> = Vec::new();
    accum.push(first);
    proof {
        assert(accum@ =~= vars_between(data, k, iter.read_count()));
    }
    match first {
        NodeVariant::Branch => {
            proof {
                lemma_read_trees_bounds(data, k + 1, 8);
            }
            let ghost before = accum@;
            let mut sub = count_vars(iter, 8);
            accum.append(&mut sub);
            proof {
                assert(accum@ =~= vars_between(data, k, iter.read_count()));
            }
        },
        _ => {},
    }
    assert(iter.read_count() == after_first);
    let mut i: u8 = 1;
    while i < num_to_read
        invariant
            iter.wf(),
            iter.data@ == data,
            iter.data == d0,
            d0 == old(iter).data,
            data == old(iter).data@,
            k == old(iter).read_count(),
            1 <= i <= num_to_read,
            k < iter.read_count(),
            read_trees(data, iter.read_count(), (num_to_read - i) as nat) == Some(end),
            accum@ == vars_between(data, k, iter.read_count()),
            4 * data.len() - iter.read_count() < 4 * data.len() - k,
            iter.read_count() <= 4 * data.len(),
        decreases num_to_read - i,
    {
        let ghost p = iter.read_count();
        proof {
            assert(read_tree(data, p) is Some);
            let a = read_tree(data, p)->0;
            assert(p < a <= 4 * data.len());
            assert(read_trees(data, a, 0) == Some(a));
            assert(read_trees(data, p, 1) == Some(a));
            assert(read_trees(data, a, (num_to_read - i - 1) as nat) == Some(end));
            lemma_read_trees_bounds(data, p, 1);
        }
        let mut sub = count_vars(iter, 1);
        accum.append(&mut sub);
        proof {
            assert(accum@ =~= vars_between(data, k, iter.read_count()));
        }
        i = i + 1;
    }
    accum
}

/// The blocks whose big endian bytes make up `s`, four bytes each.
pub open spec fn parse_blocks(s: Seq<u8>) -> Seq<Block> {
    Seq::new(s.len() / 4, |i: int| be_value(s.subrange(4 * i, 4 * i + 4)) as Block)
}

/// Whether the bytes hold one tree of variants followed by whole blocks.
pub open spec fn lists_readable(bytes: Seq<u8>) -> bool {
    &&& read_trees(bytes, 0, 1) is Some
    &&& (bytes.len() - (read_trees(bytes, 0, 1)->0 + 3) / 4) % 4 == 0
}

/// The kinds of the nodes and the blocks held by the bytes of a chunk.
pub fn bytes_to_chunk_lists(bytes: &Vec<u8>) -> (r: (Vec<NodeVariant>, Vec<Block>))
    requires
        lists_readable(bytes@),
    ensures
        r.0@ == vars_between(bytes@, 0, read_trees(bytes@, 0, 1)->0),
        r.1@ == parse_blocks(bytes@.subrange((read_trees(bytes@, 0, 1)->0 + 3) / 4, bytes@.len() as int)),
{
    let mut iter = VarIter::new(bytes);
    let nodes = count_vars(&mut iter, 1);
    proof {
        lemma_read_trees_bounds(bytes@, 0, 1);
    }
    let block_bytes = iter.remnants();
    let mut blocks: Vec<Block> = Vec::new();
    let n = block_bytes.len() / 4;
    let mut i: usize = 0;
    while i < n
        invariant
            n == block_bytes.len() / 4,
            block_bytes.len() % 4 == 0,
            i <= n,
            blocks@ =~= parse_blocks(block_bytes@).take(i as int),
        decreases n - i,
    {
        let chunk = vstd::slice::slice_subrange(block_bytes.as_slice(), 4 * i, 4 * i + 4);
        let b = bytes_to_block(chunk);
        blocks.push(b);
        i = i + 1;
    }
    assert(parse_blocks(block_bytes@).take(n as int) =~= parse_blocks(block_bytes@));
    (nodes, blocks)
}

/// Where the rebuilding of one octree of height `h` from the node kinds at
/// `vi` and the elements at `bi` ends, as the pair of next indices; `None`
/// where the rebuilding fails: a missing or erroneous node kind, a branch at
/// height zero, or a leaf above height zero without an element left. A leaf
/// at height zero without an element left becomes empty.
pub open spec fn extent(vs: Seq<NodeVariant>, bs: Seq<Block>, vi: int, bi: int, h: nat) -> Option<(int, int)>
    decreases h, 0nat,
{
    if vi < 0 || vi >= vs.len() || bi < 0 {
        None
    } else {
        match vs[vi] {
            NodeVariant::Empty => Some((vi + 1, bi)),
            NodeVariant::Leaf => if bi < bs.len() {
                Some((vi + 1, bi + 1))
            } else if h == 0 {
                Some((vi + 1, bi))
            } else {
                None
            },
            NodeVariant::Branch => if h == 0 {
                None
            } else {
                children_extent(vs, bs, vi + 1, bi, (h - 1) as nat, 8)
            },
            NodeVariant::Error => None,
        }
    }
}

/// Where the rebuilding of `n` consecutive octrees of height `h` ends.
pub open spec fn children_extent(vs: Seq<NodeVariant>, bs: Seq<Block>, vi: int, bi: int, h: nat, n: nat) -> Option<(int, int)>
    decreases h, n + 1,
{
    if n == 0 {
        Some((vi, bi))
    } else {
        match children_extent(vs, bs, vi, bi, h, (n - 1) as nat) {
            Some(p) => extent(vs, bs, p.0, p.1, h),
            None => None,
        }
    }
}

/// `t` is the octree of height `h` at `pos` rebuilt from the node kinds at
/// `vi` and the elements at `bi`.
pub open spec fn decodes(vs: Seq<NodeVariant>, bs: Seq<Block>, vi: int, bi: int, pos: Point3<Number>, h: nat, t: Octree<Block>) -> bool
    decreases t,
{
    &&& t.bounds == OctantDimensions { bottom_left: pos, diameter: pow2(h) as u16 }
    &&& t.height == h
    &&& 0 <= vi < vs.len()
    &&& match vs[vi] {
        NodeVariant::Empty => t.data is Empty,
        NodeVariant::Leaf => if 0 <= bi < bs.len() {
            t.data == OctreeData::Leaf(bs[bi])
        } else {
            t.data is Empty
        },
        NodeVariant::Branch => match t.data {
            OctreeData::Node(ch) => {
                &&& ch.len() == 8
                &&& h > 0
                &&& forall|k: int|
                    0 <= k < 8 ==> match children_extent(vs, bs, vi + 1, bi, (h - 1) as nat, k as nat) {
                        Some(p) => decodes(vs, bs, p.0, p.1, sub_bottom_left(pos, pow2((h - 1) as nat) as int, k), (h - 1) as nat, *#[trigger] octant_order(ch@)[k]),
                        None => false,
                    }
            },
            _ => false,
        },
        NodeVariant::Error => false,
    }
}

/// Rebuilds an octree of height `height` at `pos` from the node kinds from
/// index `ni` on and the elements from index `ei` on, moving both indices past what it used.
fn construct_tree(nodes: &Vec<NodeVariant>, ni: &mut usize, elements: &Vec<Block>, ei: &mut usize, pos: Point3<Number>, height: u32) -> (r: Octree<Block>)
    requires
        height <= 15,
        pos.x + pow2(height as nat) <= 65536,
        pos.y + pow2(height as nat) <= 65536,
        pos.z + pow2(height as nat) <= 65536,
        extent(nodes@, elements@, *old(ni) as int, *old(ei) as int, height as nat) is Some,
    ensures
        r.wf(),
        extent(nodes@, elements@, *old(ni) as int, *old(ei) as int, height as nat) == Some((*final(ni) as int, *final(ei) as int)),
        decodes(nodes@, elements@, *old(ni) as int, *old(ei) as int, pos, height as nat, r),
    decreases height, 1nat,
{
    proof {
        crate::octree::octant_dimensions::lemma_pow2_monotone(height as nat, 15);
        lemma2_to64();
    }
    let bounds = OctantDimensions::new(pos, pow2_u16(height));
    assert(*ni < nodes.len());
    assert(pow2(height as nat) <= 32768);
    let node = nodes[*ni];
    *ni = *ni + 1;
    match node {
        NodeVariant::Empty => {
            let r = Octree::with_fields(OctreeData::Empty, bounds, height);
            assert(nodes@[*old(ni) as int] == NodeVariant::Empty);
            assert(decodes(nodes@, elements@, *old(ni) as int, *old(ei) as int, pos, height as nat, r));
            r
        },
        NodeVariant::Leaf => {
            if *ei < elements.len() {
                let e = elements[*ei];
                *ei = *ei + 1;
                Octree::with_fields(OctreeData::Leaf(e), bounds, height)
            } else {
                Octree::with_fields(OctreeData::Empty, bounds, height)
            }
        },
        NodeVariant::Branch => construct_branch(nodes, ni, elements, ei, pos, height, bounds),
        NodeVariant::Error => {
            proof {
                assert(false);
            }
            Octree::with_fields(OctreeData::Empty, bounds, height)
        },
    }
}

/// Rebuilds the eight sub octrees of a branch whose kind was just read.
fn construct_branch(nodes: &Vec<NodeVariant>, ni: &mut usize, elements: &Vec<Block>, ei: &mut usize, pos: Point3<Number>, height: u32, bounds: OctantDimensions) -> (r: Octree<Block>)
    requires
        0 < height <= 15,
        pos.x + pow2(height as nat) <= 65536,
        pos.y + pow2(height as nat) <= 65536,
        pos.z + pow2(height as nat) <= 65536,
        pow2(height as nat) <= 32768,
        bounds == (OctantDimensions { bottom_left: pos, diameter: pow2(height as nat) as u16 }),
        1 <= *old(ni) <= nodes.len(),
        nodes@[*old(ni) - 1] == NodeVariant::Branch,
        extent(nodes@, elements@, *old(ni) - 1, *old(ei) as int, height as nat) is Some,
    ensures
        r.wf(),
        extent(nodes@, elements@, *old(ni) - 1, *old(ei) as int, height as nat) == Some((*final(ni) as int, *final(ei) as int)),
        decodes(nodes@, elements@, *old(ni) - 1, *old(ei) as int, pos, height as nat, r),
    decreases height, 0nat,
{
    proof {
        crate::octree::lemma_halving(height as nat);
    }
    let ghost vi0 = *old(ni) as int - 1;
    let ghost bi0 = *old(ei) as int;
    let child_diameter = pow2_u16(height - 1);
    let mut children: Vec<Arc<Octree<Block>>> = Vec::new();
    let mut k: u8 = 0;
    while k < 8
        invariant
            0 < height <= 15,
            pow2(height as nat) <= 32768,
            pos.x + pow2(height as nat) <= 65536,
            pos.y + pow2(height as nat) <= 65536,
            pos.z + pow2(height as nat) <= 65536,
            pow2(height as nat) == 2 * pow2((height - 1) as nat),
            pow2((height - 1) as nat) >= 1,
            child_diameter == pow2((height - 1) as nat),
            bounds == (OctantDimensions { bottom_left: pos, diameter: pow2(height as nat) as u16 }),
            bounds.valid(),
            0 <= vi0 < nodes.len(),
            nodes@[vi0] == NodeVariant::Branch,
            extent(nodes@, elements@, vi0, bi0, height as nat) == children_extent(nodes@, elements@, vi0 + 1, bi0, (height - 1) as nat, 8),
            extent(nodes@, elements@, vi0, bi0, height as nat) is Some,
            k <= 8,
            children.len() == k,
            children_extent(nodes@, elements@, vi0 + 1, bi0, (height - 1) as nat, k as nat) == Some((*ni as int, *ei as int)),
            forall|j: int|
                0 <= j < k ==> {
                    &&& (#[trigger] octant_order(children@)[j]).wf()
                    &&& octant_order(children@)[j].height == height - 1
                    &&& octant_order(children@)[j].bounds == bounds.sub_dims(7 - j)
                    &&& match children_extent(nodes@, elements@, vi0 + 1, bi0, (height - 1) as nat, j as nat) {
                        Some(p) => decodes(nodes@, elements@, p.0, p.1, sub_bottom_left(pos, pow2((height - 1) as nat) as int, j), (height - 1) as nat, *octant_order(children@)[j]),
                        None => false,
                    }
                },
        decreases 8 - k,
    {
        let octant = OctantId::from_u8(k).unwrap();
        let child_pos = octant.sub_octant_bottom_left(pos, child_diameter as usize);
        proof {
            crate::octree::octant_dimensions::lemma_sub_dims_valid(bounds, 7 - k as int);
            lemma_children_extent_prefix(nodes@, elements@, vi0 + 1, bi0, (height - 1) as nat, k as nat, 8);
        }
        let ghost ni_before = *ni as int;
        let ghost ei_before = *ei as int;
        let child = construct_tree(nodes, ni, elements, ei, child_pos, height - 1);
        proof {
            assert(children_extent(nodes@, elements@, vi0 + 1, bi0, (height - 1) as nat, (k + 1) as nat)
                == extent(nodes@, elements@, ni_before, ei_before, (height - 1) as nat));
        }
        let ghost before = children@;
        children.insert(0, Arc::new(child));
        proof {
            assert forall|j: int| 0 <= j < k implies #[trigger] octant_order(children@)[j] == octant_order(before)[j] by {}
            assert(octant_order(children@)[k as int] == Arc::new(child));
        }
        k = k + 1;
    }
    let r = Octree::with_fields(OctreeData::Node(children), bounds, height);
    proof {
        assert forall|s: int| 0 <= s < 8 implies #[trigger] children@[s] == octant_order(children@)[7 - s] by {}
        assert forall|j: int| #![trigger children_extent(nodes@, elements@, *old(ni) - 1 + 1, *old(ei) as int, (height - 1) as nat, j as nat)] 0 <= j < 8 implies match children_extent(nodes@, elements@, *old(ni) - 1 + 1, *old(ei) as int, (height - 1) as nat, j as nat) {
                Some(p) => decodes(nodes@, elements@, p.0, p.1, sub_bottom_left(pos, pow2((height - 1) as nat) as int, j), (height - 1) as nat, *octant_order((r.data->Node_0)@)[j]),
                None => false,
            } by {
            assert((r.data->Node_0)@ == children@);
            assert(octant_order(children@)[j].wf());
            assert(vi0 + 1 == *old(ni) - 1 + 1);
        }
    }
    r
}

/// A defined run of `m` octrees has a defined prefix of `n` of them.
pub proof fn lemma_children_extent_prefix(vs: Seq<NodeVariant>, bs: Seq<Block>, vi: int, bi: int, h: nat, n: nat, m: nat)
    requires
        n <= m,
        children_extent(vs, bs, vi, bi, h, m) is Some,
    ensures
        children_extent(vs, bs, vi, bi, h, n) is Some,
        n < m ==> (match children_extent(vs, bs, vi, bi, h, n) {
            Some(p) => extent(vs, bs, p.0, p.1, h) is Some,
            None => false,
        }),
    decreases m - n,
{
    if n < m {
        lemma_children_extent_prefix(vs, bs, vi, bi, h, (n + 1) as nat, m);
    }
}

/// The node kinds and the blocks held by bytes readable as lists.
pub open spec fn decoded_lists(bytes: Seq<u8>) -> (Seq<NodeVariant>, Seq<Block>) {
    let n = read_trees(bytes, 0, 1)->0;
    (vars_between(bytes, 0, n), parse_blocks(bytes.subrange((n + 3) / 4, bytes.len() as int)))
}

/// Whether the bytes hold the encoding of a chunk's octree that can be rebuilt.
pub open spec fn chunk_decodable(bytes: Seq<u8>) -> bool {
    &&& lists_readable(bytes)
    &&& extent(decoded_lists(bytes).0, decoded_lists(bytes).1, 0, 0, CHUNK_HEIGHT as nat) is Some
}

/// `c` is the chunk at `pos` rebuilt from `bytes`.
pub open spec fn decodes_chunk(bytes: Seq<u8>, pos: Point3<i32>, c: Chunk) -> bool {
    &&& c.pos == pos
    &&& c.wf()
    &&& decodes(decoded_lists(bytes).0, decoded_lists(bytes).1, 0, 0, crate::chunk::origin(), CHUNK_HEIGHT as nat, c.octree)
}

/// Rebuilds the chunk at `chunk_pos` from the bytes of its octree.
pub fn bytes_to_chunk(bytes: &Vec<u8>, chunk_pos: Point3<i32>) -> (r: Chunk)
    requires
        chunk_decodable(bytes@),
    ensures
        decodes_chunk(bytes@, chunk_pos, r),
{
    let (nodes, blocks) = bytes_to_chunk_lists(bytes);
    let mut ni: usize = 0;
    let mut ei: usize = 0;
    proof {
        lemma2_to64();
    }
    let root = construct_tree(&nodes, &mut ni, &blocks, &mut ei, Point3::origin(), CHUNK_HEIGHT);
    Chunk { pos: chunk_pos, octree: root }
}

/// Reads a chunk at `pos` from its bytes.
pub struct ChunkDeserialize;

impl ChunkDeserialize {
    pub fn from(bytes: &Vec<u8>, pos: Point3<i32>) -> (r: Chunk)
        requires
            chunk_decodable(bytes@),
        ensures
            decodes_chunk(bytes@, pos, r),
    {
        bytes_to_chunk(bytes, pos)
    }
}

/// Writes a chunk as bytes.
pub struct ChunkSerialize;

impl ChunkSerialize {
    pub fn into(chunk: &Chunk) -> (r: Vec<u8>)
        requires
            chunk.wf(),
        ensures
            r@ == chunk_bytes(*chunk),
    {
        chunk_to_bytes(chunk)
    }
}

} // verus!
