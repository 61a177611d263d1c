//! Which chunks take part in collision detection, and the handles of the
//! collision objects that stand for their blocks.
use vstd::prelude::*;
use crate::point::Point3;

verus! {

#[derive(Debug, PartialEq, Eq, Structural, Clone, Copy)]
pub enum CollisionDetectionError {
    ChunkAlreadyPresent,
}

/// The chunks added to collision detection, each with the handles of the
/// collision objects made for its blocks; no chunk position occurs twice.
pub struct CollisionDetection {
    pub terrain_handles: Vec<(Point3<i32>, Vec<usize>)>,
}

impl CollisionDetection {
    /// No chunk position occurs twice.
    pub open spec fn wf(self) -> bool {
        forall|i: int, j: int|
            0 <= i < j < self.terrain_handles@.len() ==> (#[trigger] self.terrain_handles@[i]).0
                != (#[trigger] self.terrain_handles@[j]).0
    }

    /// Whether the chunk at `pos` was added.
    pub open spec fn has(self, pos: Point3<i32>) -> bool {
        exists|i: int| 0 <= i < self.terrain_handles@.len() && (#[trigger] self.terrain_handles@[i]).0 == pos
    }

    /// The handles of the chunk at `pos`, if it was added.
    pub open spec fn handles_of(self, pos: Point3<i32>) -> Option<Seq<usize>> {
        if self.has(pos) {
            let i = choose|i: int| 0 <= i < self.terrain_handles@.len() && (#[trigger] self.terrain_handles@[i]).0 == pos;
            Some(self.terrain_handles@[i].1@)
        } else {
            None
        }
    }

    /// Collision detection without chunks.
    pub fn new() -> (r: Self)
        ensures
            r.wf(),
            forall|p: Point3<i32>| !(#[trigger] r.has(p)),
    {
        CollisionDetection { terrain_handles: Vec::new() }
    }

    /// Where the chunk at `pos` is recorded, if it was added.
    fn find(&self, pos: &Point3<i32>) -> (r: Option<usize>)
        ensures
            r is Some <==> self.has(*pos),
            r matches Some(i) ==> i < self.terrain_handles@.len() && self.terrain_handles@[i as int].0 == *pos,
    {
        let mut i: usize = 0;
        while i < self.terrain_handles.len()
            invariant
                i <= self.terrain_handles@.len(),
                forall|k: int| 0 <= k < i ==> (#[trigger] self.terrain_handles@[k]).0 != *pos,
            decreases self.terrain_handles.len() - i,
        {
            if self.terrain_handles[i].0 == *pos {
                return Some(i);
            }
            i = i + 1;
        }
        None
    }

    /// Whether the chunk at `pos` was added.
    pub fn contains_chunk(&self, pos: &Point3<i32>) -> (r: bool)
        ensures
            r == self.has(*pos),
    {
        self.find(pos).is_some()
    }

    /// Records the chunk at `pos` with the handles of its collision objects;
    /// refused, with nothing changed, when that chunk was added before.
    pub fn add_chunk(&mut self, pos: Point3<i32>, handles: Vec<usize>) -> (r: Result<(), CollisionDetectionError>)
        requires
            old(self).wf(),
        ensures
            final(self).wf(),
            r is Err <==> old(self).has(pos),
            r matches Err(e) ==> e == CollisionDetectionError::ChunkAlreadyPresent && *final(self) == *old(self),
            r is Ok ==> final(self).terrain_handles@ == old(self).terrain_handles@.push((pos, handles)),
            r is Ok ==> final(self).handles_of(pos) == Some(handles@),
            forall|p: Point3<i32>| p != pos ==> #[trigger] final(self).has(p) == old(self).has(p),
    {
        if self.find(&pos).is_some() {
            return Err(CollisionDetectionError::ChunkAlreadyPresent);
        }
        let ghost before = self.terrain_handles@;
        self.terrain_handles.push((pos, handles));
        proof {
            let n = before.len() as int;
            assert(self.terrain_handles@[n].0 == pos);
            assert(self.has(pos));
            let i = choose|i: int| 0 <= i < self.terrain_handles@.len() && (#[trigger] self.terrain_handles@[i]).0 == pos;
            if i != n {
                assert(before[i].0 == pos);
            }
            assert forall|p: Point3<i32>| p != pos implies #[trigger] self.has(p) == old(self).has(p) by {
                if self.has(p) {
                    let k = choose|k: int| 0 <= k < self.terrain_handles@.len() && (#[trigger] self.terrain_handles@[k]).0 == p;
                    assert(before[k] == self.terrain_handles@[k]);
                }
                if old(self).has(p) {
                    let k = choose|k: int| 0 <= k < before.len() && (#[trigger] before[k]).0 == p;
                    assert(self.terrain_handles@[k] == before[k]);
                }
            }
        }
        Ok(())
    }

    /// Forgets the chunk at `pos`, giving back the handles of its collision
    /// objects to remove; nothing when the chunk was not added.
    pub fn remove_chunk(&mut self, pos: &Point3<i32>) -> (r: Option<Vec<usize>>)
        requires
            old(self).wf(),
        ensures
            final(self).wf(),
            r is Some <==> old(self).has(*pos),
            r matches Some(h) ==> old(self).handles_of(*pos) == Some(h@),
            !final(self).has(*pos),
            forall|p: Point3<i32>| p != *pos ==> #[trigger] final(self).has(p) == old(self).has(p),
    {
        match self.find(pos) {
            None => None,
            Some(i) => {
                let ghost before = self.terrain_handles@;
                proof {
                    let j = choose|j: int| 0 <= j < before.len() && (#[trigger] before[j]).0 == *pos;
                    if j != i {
                        if j < i {
                            assert(before[j].0 != before[i as int].0);
                        } else {
                            assert(before[i as int].0 != before[j].0);
                        }
                    }
                }
                let (_, handles) = self.terrain_handles.remove(i);
                proof {
                    let after = self.terrain_handles@;
                    assert forall|k: int| 0 <= k < after.len() implies #[trigger] after[k] == if k < i {
                        before[k]
                    } else {
                        before[k + 1]
                    } by {}
                    assert forall|a: int, b: int| 0 <= a < b < after.len() implies (#[trigger] after[a]).0 != (
                    #[trigger] after[b]).0 by {
                        let a2 = if a < i { a } else { a + 1 };
                        let b2 = if b < i { b } else { b + 1 };
                        assert(after[a] == before[a2]);
                        assert(after[b] == before[b2]);
                    }
                    if self.has(*pos) {
                        let k = choose|k: int| 0 <= k < after.len() && (#[trigger] after[k]).0 == *pos;
                        let k2 = if k < i { k } else { k + 1 };
                        assert(after[k] == before[k2]);
                        if k2 < i {
                            assert(before[k2].0 != before[i as int].0);
                        } else {
                            assert(before[i as int].0 != before[k2].0);
                        }
                    }
                    assert forall|p: Point3<i32>| p != *pos implies #[trigger] self.has(p) == old(self).has(p) by {
                        if self.has(p) {
                            let k = choose|k: int| 0 <= k < after.len() && (#[trigger] after[k]).0 == p;
                            let k2 = if k < i { k } else { k + 1 };
                            assert(after[k] == before[k2]);
                        }
                        if old(self).has(p) {
                            let k = choose|k: int| 0 <= k < before.len() && (#[trigger] before[k]).0 == p;
                            assert(k != i);
                            let k1 = if k < i { k } else { k - 1 };
                            assert(after[k1] == before[k]);
                        }
                    }
                }
                Some(handles)
            },
        }
    }
}

} // verus!
