//! The leaves of an octree level by level, from the root down.
use vstd::prelude::*;
use vstd::arithmetic::power2::pow2;
use crate::octree::{Octree, all_valid, lemma_leaves_valid_all};
use crate::octree::octant_dimensions::{OctantDimensions, Number, pow2_u16, lemma_pow2_monotone};
use crate::octree::laws::{law_iter_leaves_cover, law_iter_permutes_leaves};
use crate::point::Point3;

verus! {

/// The entries of `s` whose cube has diameter `d`, in order.
pub open spec fn leaves_of_size<E>(s: Seq<(OctantDimensions, E)>, d: int) -> Seq<(OctantDimensions, E)>
    decreases s.len(),
{
    if s.len() == 0 {
        Seq::empty()
    } else {
        let rest = leaves_of_size(s.drop_last(), d);
        if s.last().0.diameter == d {
            rest.push(s.last())
        } else {
            rest
        }
    }
}

/// The entries of `s` of diameter `2^(n-1)`, then those of diameter
/// `2^(n-2)`, and so on down to diameter 1.
pub open spec fn leaves_by_size<E>(s: Seq<(OctantDimensions, E)>, n: nat) -> Seq<(OctantDimensions, E)>
    decreases n,
{
    if n == 0 {
        Seq::empty()
    } else {
        leaves_of_size(s, pow2((n - 1) as nat) as int) + leaves_by_size(s, (n - 1) as nat)
    }
}

impl<E> Octree<E> {
    /// The leaves of the octree with their cubes, breadth first: level by
    /// level from the root down, each level in the order of
    /// [Octree::leaves]. In a well formed octree the leaves of a level are
    /// those of one size, so larger cubes come first.
    pub open spec fn level_leaves(self) -> Seq<(OctantDimensions, E)> {
        leaves_by_size(self.leaves(), self.height as nat + 1)
    }
}

proof fn lemma_of_size_valid<E>(s: Seq<(OctantDimensions, E)>, d: int)
    requires
        all_valid(s),
    ensures
        all_valid(leaves_of_size(s, d)),
    decreases s.len(),
{
    if s.len() > 0 {
        assert(all_valid(s.drop_last())) by {
            assert forall|k: int| 0 <= k < s.drop_last().len() implies (#[trigger] s.drop_last()[k]).0.valid() by {
                assert(s.drop_last()[k] == s[k]);
            }
        }
        lemma_of_size_valid(s.drop_last(), d);
        assert(s.last() == s[s.len() - 1]);
    }
}

proof fn lemma_by_size_valid<E>(s: Seq<(OctantDimensions, E)>, n: nat)
    requires
        all_valid(s),
    ensures
        all_valid(leaves_by_size(s, n)),
    decreases n,
{
    if n > 0 {
        lemma_of_size_valid(s, pow2((n - 1) as nat) as int);
        lemma_by_size_valid(s, (n - 1) as nat);
        let a = leaves_of_size(s, pow2((n - 1) as nat) as int);
        let b = leaves_by_size(s, (n - 1) as nat);
        assert forall|k: int| 0 <= k < (a + b).len() implies (#[trigger] (a + b)[k]).0.valid() by {
            if k >= a.len() {
                assert((a + b)[k] == b[k - a.len()]);
            } else {
                assert((a + b)[k] == a[k]);
            }
        }
    }
}

/// The cubes of the breadth first leaves of a well formed octree are valid.
pub proof fn lemma_level_leaves_valid<E>(t: Octree<E>)
    requires
        t.wf(),
    ensures
        all_valid(t.level_leaves()),
{
    lemma_leaves_valid_all(t);
    lemma_by_size_valid(t.leaves(), t.height as nat + 1);
}

/// The entries of `leaves` whose cube has diameter `d`, in order.
pub fn select_of_size<E: Copy>(leaves: &Vec<(OctantDimensions, E)>, d: u16, out: &mut Vec<(OctantDimensions, E)>)
    ensures
        final(out)@ == old(out)@ + leaves_of_size(leaves@, d as int),
{
    let ghost before = out@;
    let mut i: usize = 0;
    while i < leaves.len()
        invariant
            i <= leaves.len(),
            out@ == before + leaves_of_size(leaves@.take(i as int), d as int),
        decreases leaves.len() - i,
    {
        let entry = leaves[i];
        proof {
            assert(leaves@.take(i as int + 1).drop_last() =~= leaves@.take(i as int));
            assert(leaves@.take(i as int + 1).last() == leaves@[i as int]);
        }
        if entry.0.diameter == d {
            out.push(entry);
        }
        i = i + 1;
        proof {
            assert(out@ =~= before + leaves_of_size(leaves@.take(i as int), d as int));
        }
    }
    proof {
        assert(leaves@.take(leaves.len() as int) =~= leaves@);
    }
}

impl<E: Copy + PartialEq> Octree<E> {
    /// The leaves of the octree with their cubes, in the order of [Octree::level_leaves].
    pub fn iter(&self) -> (r: Vec<(OctantDimensions, E)>)
        requires
            self.wf(),
        ensures
            r@ == self.level_leaves(),
            r@.to_multiset() == self.leaves().to_multiset(),
            forall|q: Point3<Number>| self.bounds.contains(q) && (#[trigger] self.lookup(q)) is Some ==> exists|k: int|
                0 <= k < r@.len() && (#[trigger] r@[k]).0.contains(q) && self.lookup(q) == Some(r@[k].1),
    {
        let dfs = self.depth_first_leaves();
        let ghost target = leaves_by_size(dfs@, self.height as nat + 1);
        let mut out: Vec<(OctantDimensions, E)> = Vec::new();
        let mut n: u32 = self.height + 1;
        while n > 0
            invariant
                self.wf(),
                dfs@ == self.leaves(),
                target == leaves_by_size(dfs@, self.height as nat + 1),
                n <= self.height + 1,
                self.height <= 15,
                out@ + leaves_by_size(dfs@, n as nat) == target,
            decreases n,
        {
            proof {
                lemma_pow2_monotone((n - 1) as nat, 15);
                vstd::arithmetic::power2::lemma2_to64();
            }
            let d = pow2_u16(n - 1);
            let ghost before = out@;
            select_of_size(&dfs, d, &mut out);
            proof {
                let a = leaves_of_size(dfs@, pow2((n - 1) as nat) as int);
                let b = leaves_by_size(dfs@, (n - 1) as nat);
                assert(leaves_by_size(dfs@, n as nat) == a + b);
                assert(before + (a + b) =~= (before + a) + b);
            }
            n = n - 1;
        }
        proof {
            assert(out@ + leaves_by_size(dfs@, 0) =~= out@);
            assert forall|q: Point3<Number>| self.bounds.contains(q) && (#[trigger] self.lookup(q)) is Some implies exists|k: int|
                0 <= k < out@.len() && (#[trigger] out@[k]).0.contains(q) && self.lookup(q) == Some(out@[k].1) by {
                law_iter_leaves_cover(*self, q);
            }
            law_iter_permutes_leaves(*self);
        }
        out
    }
}

} // verus!
