//! Dimensions: their configuration and the chunks they hold.
pub mod storage;

use vstd::prelude::*;
use crate::chunk::Chunk;
use crate::morton_code::{MortonCode, encode_spec};
use crate::point::Point3;
use crate::dimension::storage::DimensionStorage;

verus! {

/// Where a dimension is kept on disk and how far around a player chunks are generated.
pub struct DimensionConfig {
    pub directory: String,
    pub generate_radius: usize,
}

impl Default for DimensionConfig {
    fn default() -> (r: Self)
        ensures
            r.directory@ == "./resources/dimension/"@,
            r.generate_radius == 4,
    {
        DimensionConfig { directory: String::from_str("./resources/dimension/"), generate_radius: 4 }
    }
}

impl DimensionConfig {
    pub fn new(directory: String, generate_radius: usize) -> (r: Self)
        ensures
            r.directory == directory,
            r.generate_radius == generate_radius,
    {
        DimensionConfig { directory, generate_radius }
    }
}

/// The chunks of a dimension.
pub struct Dimension {
    pub storage: DimensionStorage,
}

impl Dimension {
    pub open spec fn wf(self) -> bool {
        self.storage.wf()
    }

    /// A dimension without chunks.
    pub fn new() -> (r: Self)
        ensures
            r.wf(),
            forall|m: u128| !(#[trigger] r.storage.has(m)),
    {
        Dimension { storage: DimensionStorage::new() }
    }

    /// Whether a chunk is stored under `pos`.
    pub fn chunk_exists(&self, pos: &MortonCode) -> (r: bool)
        requires
            self.wf(),
        ensures
            r == self.storage.has(pos.data),
    {
        self.storage.get(pos).is_some()
    }

    /// The chunk stored under `morton`, if any.
    pub fn get_chunk(&self, morton: &MortonCode) -> (r: Option<&Chunk>)
        requires
            self.wf(),
        ensures
            r is Some <==> self.storage.has(morton.data),
            r matches Some(c) ==> Some(*c) == self.storage.stored(morton.data),
    {
        self.storage.get(morton)
    }

    /// The stored chunks, in the order of their codes.
    pub fn iter(&self) -> (r: &Vec<Chunk>)
        ensures
            r@ == self.storage.data@,
    {
        self.storage.chunks()
    }
}


/// The codes of the `candidates` chosen for generation, in order: a
/// candidate is chosen when no chunk of `dim` is stored under its code and
/// its code is not in `queued`, the chunks already being generated.
pub open spec fn to_generate(dim: Dimension, queued: Seq<MortonCode>, candidates: Seq<Point3<i32>>) -> Seq<MortonCode>
    decreases candidates.len(),
{
    if candidates.len() == 0 {
        Seq::empty()
    } else {
        let rest = to_generate(dim, queued, candidates.drop_last());
        let p = candidates.last();
        let m = MortonCode { data: encode_spec(p.x, p.y, p.z) as u128 };
        if !dim.storage.has(m.data) && !queued.contains(m) {
            rest.push(m)
        } else {
            rest
        }
    }
}

/// Whether `m` is one of `queued`.
fn is_queued(queued: &Vec<MortonCode>, m: &MortonCode) -> (r: bool)
    ensures
        r == queued@.contains(*m),
{
    let mut i: usize = 0;
    while i < queued.len()
        invariant
            i <= queued.len(),
            forall|k: int| 0 <= k < i ==> queued@[k] != *m,
        decreases queued.len() - i,
    {
        if queued[i].data == m.data {
            assert(queued@[i as int] == *m);
            return true;
        }
        i = i + 1;
    }
    false
}

impl Dimension {
    /// The codes of the chunk positions among `candidates` that are to be
    /// generated, in order: those under which no chunk is stored and whose
    /// code is not in `queued`, the chunks already being generated, so that
    /// no work is repeated.
    pub fn chunks_to_generate(&self, queued: &Vec<MortonCode>, candidates: &Vec<Point3<i32>>) -> (r: Vec<MortonCode>)
        requires
            self.wf(),
        ensures
            r@ == to_generate(*self, queued@, candidates@),
    {
        let mut out: Vec<MortonCode> = Vec::new();
        let mut i: usize = 0;
        while i < candidates.len()
            invariant
                self.wf(),
                i <= candidates.len(),
                out@ == to_generate(*self, queued@, candidates@.take(i as int)),
            decreases candidates.len() - i,
        {
            let m = MortonCode::from_point(&candidates[i]);
            proof {
                assert(candidates@.take(i as int + 1).drop_last() =~= candidates@.take(i as int));
                assert(candidates@.take(i as int + 1).last() == candidates@[i as int]);
            }
            if !self.chunk_exists(&m) && !is_queued(queued, &m) {
                out.push(m);
            }
            i = i + 1;
        }
        proof {
            assert(candidates@.take(candidates.len() as int) =~= candidates@);
        }
        out
    }
}

} // verus!
