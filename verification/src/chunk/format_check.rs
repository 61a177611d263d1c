//! Deciding whether bytes hold a chunk that can be rebuilt.
use vstd::prelude::*;
use crate::chunk::Block;
use crate::chunk::CHUNK_HEIGHT;
use crate::chunk::file_format::{
    NodeVariant, var_at, read_tree, read_trees, lists_readable, extent, children_extent, chunk_decodable,
    decoded_lists, bytes_to_chunk_lists, bits_to_variant, lemma_extract_bits,
};

verus! {

/// The variant at index `k` of the packed stream in `data`.
fn variant_at(data: &Vec<u8>, k: usize) -> (r: NodeVariant)
    requires
        k < 4 * data.len(),
    ensures
        r == var_at(data@, k as int),
{
    let b = data[k / 4];
    let s = (k % 4) as u8;
    proof {
        lemma_extract_bits(b, s);
    }
    let bits = (b >> (2 * (3 - s))) & 0x03;
    bits_to_variant(bits)
}

/// Where the reading of one tree starting at index `k` ends, as [read_tree].
fn check_tree(data: &Vec<u8>, k: usize) -> (r: Option<usize>)
    requires
        4 * data.len() < usize::MAX,
    ensures
        r is Some <==> read_tree(data@, k as int) is Some,
        r matches Some(a) ==> a == read_tree(data@, k as int)->0,
    decreases 4 * data.len() - k, 0nat, 0nat,
{
    if k >= 4 * data.len() {
        None
    } else if variant_at(data, k) == NodeVariant::Branch {
        check_trees(data, k + 1, 8)
    } else {
        Some(k + 1)
    }
}

/// Where the reading of `n` trees starting at index `k` ends, as [read_trees].
fn check_trees(data: &Vec<u8>, k: usize, n: u8) -> (r: Option<usize>)
    requires
        4 * data.len() < usize::MAX,
    ensures
        r is Some <==> read_trees(data@, k as int, n as nat) is Some,
        r matches Some(a) ==> a == read_trees(data@, k as int, n as nat)->0,
    decreases 4 * data.len() - k, n, 1nat,
{
    if n == 0 {
        Some(k)
    } else {
        match check_tree(data, k) {
            Some(a) => if k < a && a <= 4 * data.len() {
                check_trees(data, a, n - 1)
            } else {
                None
            },
            None => None,
        }
    }
}

/// Where the tree of height `h` rebuilt from the variants at `vi` and the
/// blocks at `bi` ends in the two lists, as [extent].
fn check_extent(vs: &Vec<NodeVariant>, bs: &Vec<Block>, vi: usize, bi: usize, h: u32) -> (r: Option<(usize, usize)>)
    requires
        vs.len() < usize::MAX,
        bs.len() < usize::MAX,
        bi <= bs.len(),
    ensures
        r is Some <==> extent(vs@, bs@, vi as int, bi as int, h as nat) is Some,
        r matches Some(p) ==> extent(vs@, bs@, vi as int, bi as int, h as nat) == Some((p.0 as int, p.1 as int)),
        r matches Some(p) ==> p.0 <= vs.len() && p.1 <= bs.len(),
    decreases h, 0nat,
{
    if vi >= vs.len() {
        None
    } else {
        match vs[vi] {
            NodeVariant::Empty => Some((vi + 1, bi)),
            NodeVariant::Leaf => if bi < bs.len() {
                Some((vi + 1, bi + 1))
            } else if h == 0 {
                Some((vi + 1, bi))
            } else {
                None
            },
            NodeVariant::Branch => if h == 0 {
                None
            } else {
                check_children(vs, bs, vi + 1, bi, h - 1, 8)
            },
            NodeVariant::Error => None,
        }
    }
}

/// Where `n` sibling trees of height `h` end, as [children_extent].
fn check_children(vs: &Vec<NodeVariant>, bs: &Vec<Block>, vi: usize, bi: usize, h: u32, n: u8) -> (r: Option<(usize, usize)>)
    requires
        vs.len() < usize::MAX,
        bs.len() < usize::MAX,
        vi <= vs.len(),
        bi <= bs.len(),
    ensures
        r is Some <==> children_extent(vs@, bs@, vi as int, bi as int, h as nat, n as nat) is Some,
        r matches Some(p) ==> children_extent(vs@, bs@, vi as int, bi as int, h as nat, n as nat) == Some((p.0 as int, p.1 as int)),
        r matches Some(p) ==> p.0 <= vs.len() && p.1 <= bs.len(),
    decreases h, n + 1,
{
    if n == 0 {
        Some((vi, bi))
    } else {
        match check_children(vs, bs, vi, bi, h, n - 1) {
            Some(p) => check_extent(vs, bs, p.0, p.1, h),
            None => None,
        }
    }
}

/// Whether `bytes` hold a chunk that [crate::chunk::file_format::bytes_to_chunk] can rebuild.
pub fn chunk_bytes_decodable(bytes: &Vec<u8>) -> (r: bool)
    requires
        4 * bytes.len() < usize::MAX,
    ensures
        r == chunk_decodable(bytes@),
{
    match check_trees(bytes, 0, 1) {
        None => false,
        Some(n) => {
            let used = n / 4 + if n % 4 == 0 { 0 } else { 1 };
            proof {
                crate::chunk::file_format::lemma_read_trees_bounds(bytes@, 0, 1);
            }
            if used > bytes.len() || (bytes.len() - used) % 4 != 0 {
                false
            } else {
                let (vs, bs) = bytes_to_chunk_lists(bytes);
                proof {
                    assert(vs@ == decoded_lists(bytes@).0);
                    assert(bs@ == decoded_lists(bytes@).1);
                }
                check_extent(&vs, &bs, 0, 0, CHUNK_HEIGHT).is_some()
            }
        },
    }
}

} // verus!
