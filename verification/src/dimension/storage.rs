//! Chunks of a dimension kept in the order of their Morton codes.
use vstd::prelude::*;
use crate::chunk::Chunk;
use crate::morton_code::MortonCode;

verus! {

/// Chunks stored by Morton code, the codes kept sorted and distinct, each
/// chunk at the same index as its code.
pub struct DimensionStorage {
    pub len: usize,
    pub indices: Vec<MortonCode>,
    pub data: Vec<Chunk>,
}

/// The raw codes are strictly increasing.
pub open spec fn sorted(ks: Seq<MortonCode>) -> bool {
    forall|i: int, j: int| 0 <= i < j < ks.len() ==> ks[i].data < ks[j].data
}

impl DimensionStorage {
    pub open spec fn wf(self) -> bool {
        &&& self.indices.len() == self.data.len()
        &&& sorted(self.indices@)
    }

    /// Whether a chunk is stored under the code with raw bits `m`.
    pub open spec fn has(self, m: u128) -> bool {
        exists|i: int| 0 <= i < self.indices.len() && self.indices@[i].data == m
    }

    /// The index of the code with raw bits `m`.
    pub open spec fn index_of(self, m: u128) -> int {
        choose|i: int| 0 <= i < self.indices.len() && self.indices@[i].data == m
    }

    /// The chunk stored under the code with raw bits `m`.
    pub open spec fn stored(self, m: u128) -> Option<Chunk> {
        if self.has(m) {
            Some(self.data@[self.index_of(m)])
        } else {
            None
        }
    }

    /// An empty storage; `capacity` is remembered as its intended size.
    pub fn with_capacity(capacity: usize) -> (r: Self)
        ensures
            r.wf(),
            r.len == capacity,
            r.indices.len() == 0,
            forall|m: u128| !(#[trigger] r.has(m)),
    {
        DimensionStorage { len: capacity, indices: Vec::new(), data: Vec::new() }
    }

    /// An empty storage meant for nine chunks.
    pub fn new() -> (r: Self)
        ensures
            r.wf(),
            r.len == 9,
            r.indices.len() == 0,
            forall|m: u128| !(#[trigger] r.has(m)),
    {
        DimensionStorage::with_capacity(9)
    }

    /// The number of chunks stored.
    pub fn len(&self) -> (r: usize)
        ensures
            r == self.data.len(),
    {
        self.data.len()
    }

    /// Where the code `m` is (`Ok`), or where it would be inserted to keep the codes sorted (`Err`).
    pub fn search(&self, m: &MortonCode) -> (r: Result<usize, usize>)
        requires
            self.wf(),
        ensures
            r matches Ok(i) ==> i < self.indices.len() && self.indices@[i as int] == *m,
            r matches Err(i) ==> i <= self.indices.len() && !self.has(m.data) && (forall|j: int|
                0 <= j < i ==> self.indices@[j].data < m.data) && (forall|j: int|
                i <= j < self.indices.len() ==> self.indices@[j].data > m.data),
    {
        let mut lo: usize = 0;
        let mut hi: usize = self.indices.len();
        while lo < hi
            invariant
                self.wf(),
                0 <= lo <= hi <= self.indices.len(),
                forall|j: int| 0 <= j < lo ==> self.indices@[j].data < m.data,
                forall|j: int| hi <= j < self.indices.len() ==> self.indices@[j].data > m.data,
            decreases hi - lo,
        {
            let mid = lo + (hi - lo) / 2;
            let k = self.indices[mid].data;
            if k == m.data {
                return Ok(mid);
            } else if k < m.data {
                lo = mid + 1;
            } else {
                hi = mid;
            }
        }
        Err(lo)
    }

    /// Stores `chunk` under `pos`, giving back the chunk stored there before, if any.
    pub fn insert(&mut self, pos: MortonCode, chunk: Chunk) -> (r: Option<Chunk>)
        requires
            old(self).wf(),
        ensures
            final(self).wf(),
            final(self).len == old(self).len,
            r == old(self).stored(pos.data),
            final(self).data.len() == old(self).data.len() + if old(self).has(pos.data) {
                0int
            } else {
                1int
            },
            forall|k: u128| #[trigger] final(self).stored(k) == if k == pos.data {
                Some(chunk)
            } else {
                old(self).stored(k)
            },
    {
        match self.search(&pos) {
            Err(indx) => {
                self.indices.insert(indx, pos);
                self.data.insert(indx, chunk);
                proof {
                    assert forall|k: u128| #[trigger] self.stored(k) == if k == pos.data {
                        Some(chunk)
                    } else {
                        old(self).stored(k)
                    } by {
                        if k == pos.data {
                            assert(self.indices@[indx as int].data == k);
                            lemma_index_unique(self.indices@, self.index_of(k), indx as int);
                        } else if old(self).has(k) {
                            let i = old(self).index_of(k);
                            let i2 = if i < indx { i } else { i + 1 };
                            assert(self.indices@[i2].data == k);
                            lemma_index_unique(self.indices@, self.index_of(k), i2);
                        } else {
                            if self.has(k) {
                                let i = self.index_of(k);
                                if i < indx {
                                    assert(old(self).indices@[i].data == k);
                                } else if i > indx {
                                    assert(old(self).indices@[i - 1].data == k);
                                }
                            }
                        }
                    }
                }
                None
            },
            Ok(indx) => {
                let old_chunk = self.data.remove(indx);
                self.data.insert(indx, chunk);
                proof {
                    lemma_index_unique(self.indices@, old(self).index_of(pos.data), indx as int);
                    assert forall|k: u128| #[trigger] self.stored(k) == if k == pos.data {
                        Some(chunk)
                    } else {
                        old(self).stored(k)
                    } by {
                        if self.has(k) {
                            lemma_index_unique(self.indices@, self.index_of(k), old(self).index_of(k));
                        }
                    }
                }
                Some(old_chunk)
            },
        }
    }

    /// The chunk stored under `pos`, if any.
    pub fn get(&self, pos: &MortonCode) -> (r: Option<&Chunk>)
        requires
            self.wf(),
        ensures
            r is Some <==> self.has(pos.data),
            r matches Some(c) ==> Some(*c) == self.stored(pos.data),
    {
        match self.search(pos) {
            Err(_) => None,
            Ok(indx) => {
                proof {
                    lemma_index_unique(self.indices@, self.index_of(pos.data), indx as int);
                }
                Some(&self.data[indx])
            },
        }
    }

    /// Whether a chunk is stored under `pos`.
    pub fn chunk_stored(&self, pos: &MortonCode) -> (r: bool)
        requires
            self.wf(),
        ensures
            r == self.has(pos.data),
    {
        self.search(pos).is_ok()
    }

    /// The stored chunks, in the order of their codes.
    pub fn chunks(&self) -> (r: &Vec<Chunk>)
        ensures
            r@ == self.data@,
    {
        &self.data
    }
}

/// In a sorted sequence of codes, equal raw bits sit at one index.
pub proof fn lemma_index_unique(ks: Seq<MortonCode>, i: int, j: int)
    requires
        sorted(ks),
        0 <= i < ks.len(),
        0 <= j < ks.len(),
        ks[i].data == ks[j].data,
    ensures
        i == j,
{
    if i < j {
        assert(ks[i].data < ks[j].data);
    } else if j < i {
        assert(ks[j].data < ks[i].data);
    }
}

} // verus!
