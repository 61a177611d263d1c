use vstd::prelude::*;
use vstd::laws_eq::obeys_concrete_eq;
use std::sync::Arc;
use crate::octree::Octree;

verus! {

/// The data of one node of an [Octree]: eight sub octrees, a single element
/// covering the whole octant, or nothing.
#[derive(Debug, PartialEq, Eq)]
pub enum OctreeData<E> {
    Node(Vec<Arc<Octree<E>>>),
    Leaf(E),
    Empty,
}

impl<E> OctreeData<E> {
    /// The element that a non branching node gives every point it covers.
    pub open spec fn value(self) -> Option<E> {
        match self {
            OctreeData::Leaf(e) => Some(e),
            _ => None,
        }
    }

    /// Whether the data holds no sub octrees.
    pub open spec fn is_flat(self) -> bool {
        !(self is Node)
    }

    pub fn is_node(&self) -> (r: bool)
        ensures
            r == (*self is Node),
    {
        match self {
            OctreeData::Node(_) => true,
            _ => false,
        }
    }

    pub fn is_flat_exec(&self) -> (r: bool)
        ensures
            r == self.is_flat(),
    {
        !self.is_node()
    }

    pub fn is_empty(&self) -> (r: bool)
        ensures
            r == (*self is Empty),
    {
        match self {
            OctreeData::Empty => true,
            _ => false,
        }
    }
}

impl<E: Copy> OctreeData<E> {
    /// A copy of flat data.
    pub fn copy_flat(&self) -> (r: Self)
        requires
            self.is_flat(),
        ensures
            r == *self,
    {
        match self {
            OctreeData::Leaf(e) => OctreeData::Leaf(*e),
            _ => OctreeData::Empty,
        }
    }
}

impl<E: Copy + PartialEq> OctreeData<E> {
    /// Whether both data are flat and equal. Two branching data are never
    /// counted as equal here; siblings in an octree cover different octants,
    /// so their sub octrees always differ.
    pub fn flat_eq(&self, other: &Self) -> (r: bool)
        requires
            obeys_concrete_eq::<E>(),
        ensures
            r <==> (self.is_flat() && *self == *other),
    {
        match (self, other) {
            (OctreeData::Empty, OctreeData::Empty) => true,
            (OctreeData::Leaf(a), OctreeData::Leaf(b)) => {
                proof {
                    reveal(obeys_concrete_eq);
                }
                *a == *b
            },
            _ => false,
        }
    }
}

} // verus!
