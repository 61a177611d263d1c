//! Laws relating the octree operations to each other.
use vstd::prelude::*;
use crate::point::Point3;
use crate::octree::{Octree, lemma_canonical, lemma_halving, child_leaves, leaves8};
use crate::octree::octree_data::OctreeData;
use crate::octree::octant::Octant;
use crate::octree::octant_dimensions::{Number, OctantDimensions, lemma_sub_dims_valid};
use crate::octree::level_order::{leaves_of_size, leaves_by_size};
use std::sync::Arc;
use vstd::arithmetic::power2::pow2;

verus! {

/// `r` is a well formed octree over the cube of `t` that stores `e` at `p`
/// and agrees with `t` everywhere else: what [Octree::insert] returns.
pub open spec fn inserted<E>(t: Octree<E>, p: Point3<Number>, e: E, r: Octree<E>) -> bool {
    &&& r.wf()
    &&& r.bounds == t.bounds
    &&& r.height == t.height
    &&& forall|q: Point3<Number>| t.bounds.contains(q) ==> #[trigger] r.lookup(q) == if q == p {
        Some(e)
    } else {
        t.lookup(q)
    }
}

/// `r` is a well formed octree over the cube of `t` that stores nothing at
/// the point of the cube nearest to `p` and agrees with `t` everywhere else:
/// what [Octree::delete] returns.
pub open spec fn deleted<E>(t: Octree<E>, p: Point3<Number>, r: Octree<E>) -> bool {
    &&& r.wf()
    &&& r.bounds == t.bounds
    &&& r.height == t.height
    &&& forall|q: Point3<Number>| t.bounds.contains(q) ==> #[trigger] r.lookup(q) == if q
        == t.bounds.clamp(p) {
        None
    } else {
        t.lookup(q)
    }
}

/// Storing the same element twice at a point gives the same octree as storing it once.
pub proof fn law_insert_idempotent<E>(t: Octree<E>, p: Point3<Number>, e: E, once: Octree<E>, twice: Octree<E>)
    requires
        t.bounds.contains(p),
        inserted(t, p, e, once),
        inserted(once, p, e, twice),
        once.compressed(),
        twice.compressed(),
    ensures
        twice.same_tree(once),
{
    lemma_canonical(twice, once);
}

/// Deleting a point twice gives the same octree as deleting it once.
pub proof fn law_delete_idempotent<E>(t: Octree<E>, p: Point3<Number>, once: Octree<E>, twice: Octree<E>)
    requires
        deleted(t, p, once),
        deleted(once, p, twice),
        once.compressed(),
        twice.compressed(),
    ensures
        twice.same_tree(once),
        once.lookup(t.bounds.clamp(p)) is None,
{
    assert(t.bounds.contains(t.bounds.clamp(p)));
    lemma_canonical(twice, once);
}

/// The latest element stored at a point wins: storing `e` and then `f` at
/// `p` gives the same octree as storing `f` alone.
pub proof fn law_insert_overwrites<E>(
    t: Octree<E>,
    p: Point3<Number>,
    e: E,
    f: E,
    first: Octree<E>,
    second: Octree<E>,
    only: Octree<E>,
)
    requires
        inserted(t, p, e, first),
        inserted(first, p, f, second),
        inserted(t, p, f, only),
        second.compressed(),
        only.compressed(),
    ensures
        second.same_tree(only),
        second.lookup(p) == Some(f) || !t.bounds.contains(p),
{
    lemma_canonical(second, only);
}

/// Deleting a point after storing an element there gives the same octree as
/// deleting it from the octree before the element was stored.
pub proof fn law_delete_undoes_insert<E>(
    t: Octree<E>,
    p: Point3<Number>,
    e: E,
    stored: Octree<E>,
    removed: Octree<E>,
    direct: Octree<E>,
)
    requires
        t.bounds.contains(p),
        inserted(t, p, e, stored),
        deleted(stored, p, removed),
        deleted(t, p, direct),
        removed.compressed(),
        direct.compressed(),
    ensures
        removed.same_tree(direct),
{
    crate::octree::lemma_clamp_inside(t.bounds, p);
    lemma_canonical(removed, direct);
}

/// Storing at two different points commutes.
pub proof fn law_insert_commutes<E>(
    t: Octree<E>,
    p: Point3<Number>,
    e: E,
    q: Point3<Number>,
    f: E,
    pe: Octree<E>,
    pe_qf: Octree<E>,
    qf: Octree<E>,
    qf_pe: Octree<E>,
)
    requires
        p != q,
        inserted(t, p, e, pe),
        inserted(pe, q, f, pe_qf),
        inserted(t, q, f, qf),
        inserted(qf, p, e, qf_pe),
        pe_qf.compressed(),
        qf_pe.compressed(),
    ensures
        pe_qf.same_tree(qf_pe),
{
    lemma_canonical(pe_qf, qf_pe);
}


/// The `c`-th sub octree.
pub open spec fn child_tree<E>(ch: Seq<Arc<Octree<E>>>, c: int) -> Octree<E> {
    *ch[c]
}

/// Every entry of `s` is a cube inside the cube of `t` whose cells all hold
/// the entry's element in `t`.
pub open spec fn entries_hold<E>(t: Octree<E>, s: Seq<(OctantDimensions, E)>) -> bool {
    forall|k: int, q: Point3<Number>|
        0 <= k < s.len() && (#[trigger] s[k]).0.contains(q) ==> t.bounds.contains(q) && #[trigger] t.lookup(q) == Some(
            s[k].1,
        )
}

proof fn lemma_entries_hold_concat<E>(t: Octree<E>, a: Seq<(OctantDimensions, E)>, b: Seq<(OctantDimensions, E)>)
    requires
        entries_hold(t, a),
        entries_hold(t, b),
    ensures
        entries_hold(t, a + b),
{
    assert forall|k: int, q: Point3<Number>| 0 <= k < (a + b).len() && (#[trigger] (a + b)[k]).0.contains(q) implies t.bounds.contains(q)
        && #[trigger] t.lookup(q) == Some((a + b)[k].1) by {
        if k < a.len() {
            assert((a + b)[k] == a[k]);
        } else {
            assert((a + b)[k] == b[k - a.len()]);
        }
    }
}

proof fn lemma_child_entries_hold<E>(t: Octree<E>, ch: Seq<Arc<Octree<E>>>, c: int)
    requires
        t.wf(),
        t.data matches OctreeData::Node(v) && v@ == ch,
        0 <= c < 8,
        entries_hold(child_tree(ch, c), child_leaves(ch, c)),
    ensures
        entries_hold(t, child_leaves(ch, c)),
{
    lemma_halving(t.height as nat);
    lemma_sub_dims_valid(t.bounds, c);
    let s = child_leaves(ch, c);
    assert forall|k: int, q: Point3<Number>| 0 <= k < s.len() && (#[trigger] s[k]).0.contains(q) implies t.bounds.contains(q)
        && #[trigger] t.lookup(q) == Some(s[k].1) by {
        assert(ch[c].lookup(q) == Some(s[k].1));
        assert(t.bounds.sub_dims(c).contains(q));
        assert(t.bounds.octant_index(q) == c);
    }
}

/// The entries of the depth first leaves of a well formed octree hold.
proof fn lemma_leaves_hold<E>(t: Octree<E>)
    requires
        t.wf(),
    ensures
        entries_hold(t, t.leaves()),
    decreases t.height,
{
    match t.data {
        OctreeData::Node(v) => {
            let ch = v@;
            lemma_halving(t.height as nat);
            assert forall|c: int| 0 <= c < 8 implies entries_hold(t, #[trigger] child_leaves(ch, c)) by {
                lemma_leaves_hold(child_tree(ch, c));
                lemma_child_entries_hold(t, ch, c);
            }
            let l7 = child_leaves(ch, 7);
            let l6 = child_leaves(ch, 6);
            let l5 = child_leaves(ch, 5);
            let l4 = child_leaves(ch, 4);
            let l3 = child_leaves(ch, 3);
            let l2 = child_leaves(ch, 2);
            let l1 = child_leaves(ch, 1);
            let l0 = child_leaves(ch, 0);
            lemma_entries_hold_concat(t, l0, l1);
            lemma_entries_hold_concat(t, l0 + l1, l2);
            lemma_entries_hold_concat(t, l0 + l1 + l2, l3);
            lemma_entries_hold_concat(t, l0 + l1 + l2 + l3, l4);
            lemma_entries_hold_concat(t, l0 + l1 + l2 + l3 + l4, l5);
            lemma_entries_hold_concat(t, l0 + l1 + l2 + l3 + l4 + l5, l6);
            lemma_entries_hold_concat(t, l0 + l1 + l2 + l3 + l4 + l5 + l6, l7);
            assert(t.leaves() == leaves8(ch));
        },
        OctreeData::Leaf(e) => {
            assert(t.leaves() == seq![(t.bounds, e)]);
        },
        OctreeData::Empty => {
            assert(t.leaves() =~= Seq::<(OctantDimensions, E)>::empty());
        },
    }
}

proof fn lemma_of_size_holds<E>(t: Octree<E>, s: Seq<(OctantDimensions, E)>, d: int)
    requires
        entries_hold(t, s),
    ensures
        entries_hold(t, leaves_of_size(s, d)),
    decreases s.len(),
{
    if s.len() > 0 {
        assert(entries_hold(t, s.drop_last())) by {
            assert forall|k: int, q: Point3<Number>| 0 <= k < s.drop_last().len() && (#[trigger] s.drop_last()[k]).0.contains(q) implies t.bounds.contains(q)
                && #[trigger] t.lookup(q) == Some(s.drop_last()[k].1) by {
                assert(s.drop_last()[k] == s[k]);
            }
        }
        lemma_of_size_holds(t, s.drop_last(), d);
        let rest = leaves_of_size(s.drop_last(), d);
        if s.last().0.diameter == d {
            assert forall|k: int, q: Point3<Number>| 0 <= k < rest.push(s.last()).len() && (#[trigger] rest.push(s.last())[k]).0.contains(q) implies t.bounds.contains(q)
                && #[trigger] t.lookup(q) == Some(rest.push(s.last())[k].1) by {
                if k == rest.len() {
                    assert(s.last() == s[s.len() - 1]);
                } else {
                    assert(rest.push(s.last())[k] == rest[k]);
                }
            }
        }
    }
}

proof fn lemma_by_size_holds<E>(t: Octree<E>, s: Seq<(OctantDimensions, E)>, n: nat)
    requires
        entries_hold(t, s),
    ensures
        entries_hold(t, leaves_by_size(s, n)),
    decreases n,
{
    if n > 0 {
        let d = vstd::arithmetic::power2::pow2((n - 1) as nat) as int;
        lemma_of_size_holds(t, s, d);
        lemma_by_size_holds(t, s, (n - 1) as nat);
        lemma_entries_hold_concat(t, leaves_of_size(s, d), leaves_by_size(s, (n - 1) as nat));
    }
}

/// Every leaf that [Octree::iter] yields covers cells of the octree's cube
/// that all hold the leaf's element.
pub proof fn law_iter_leaves_hold<E>(t: Octree<E>, k: int, q: Point3<Number>)
    requires
        t.wf(),
        0 <= k < t.level_leaves().len(),
        t.level_leaves()[k].0.contains(q),
    ensures
        t.bounds.contains(q),
        t.lookup(q) == Some(t.level_leaves()[k].1),
{
    lemma_leaves_hold(t);
    lemma_by_size_holds(t, t.leaves(), t.height as nat + 1);
}


/// `r` is what [Octree::compress] makes of `t`: a well formed compressed
/// octree over the same cube that holds the same element in every cell.
pub open spec fn compressed_from<E>(t: Octree<E>, r: Octree<E>) -> bool {
    &&& r.wf()
    &&& r.compressed()
    &&& r.bounds == t.bounds
    &&& r.height == t.height
    &&& forall|q: Point3<Number>| t.bounds.contains(q) ==> #[trigger] r.lookup(q) == t.lookup(q)
}

/// Compressing an octree a second time gives the same octree, node for
/// node, as compressing it once; and compressing an octree that is already
/// compressed gives it back.
pub proof fn law_compress_idempotent<E>(t: Octree<E>, once: Octree<E>, twice: Octree<E>)
    requires
        t.wf(),
        compressed_from(t, once),
        compressed_from(once, twice),
    ensures
        twice.same_tree(once),
        t.compressed() ==> once.same_tree(t),
{
    lemma_canonical(twice, once);
    if t.compressed() {
        lemma_canonical(once, t);
    }
}

/// An entry of either part is an entry of the concatenation.
pub proof fn lemma_concat_contains<T>(a: Seq<T>, b: Seq<T>, x: T)
    ensures
        (a.contains(x) || b.contains(x)) ==> (a + b).contains(x),
{
    if a.contains(x) {
        let k = choose|k: int| 0 <= k < a.len() && a[k] == x;
        assert((a + b)[k] == x);
    } else if b.contains(x) {
        let k = choose|k: int| 0 <= k < b.len() && b[k] == x;
        assert((a + b)[a.len() + k] == x);
    }
}

/// A leaf of one sub octree is a leaf of the branch.
proof fn lemma_leaves8_contains<E>(ch: Seq<Arc<Octree<E>>>, i: int, x: (OctantDimensions, E))
    requires
        0 <= i < 8,
        child_leaves(ch, i).contains(x),
    ensures
        leaves8(ch).contains(x),
{
    let l0 = child_leaves(ch, 0);
    let l1 = child_leaves(ch, 1);
    let l2 = child_leaves(ch, 2);
    let l3 = child_leaves(ch, 3);
    let l4 = child_leaves(ch, 4);
    let l5 = child_leaves(ch, 5);
    let l6 = child_leaves(ch, 6);
    let l7 = child_leaves(ch, 7);
    lemma_concat_contains(l0, l1, x);
    lemma_concat_contains(l0 + l1, l2, x);
    lemma_concat_contains(l0 + l1 + l2, l3, x);
    lemma_concat_contains(l0 + l1 + l2 + l3, l4, x);
    lemma_concat_contains(l0 + l1 + l2 + l3 + l4, l5, x);
    lemma_concat_contains(l0 + l1 + l2 + l3 + l4 + l5, l6, x);
    lemma_concat_contains(l0 + l1 + l2 + l3 + l4 + l5 + l6, l7, x);
}

/// Every filled cell of a well formed octree lies in the cube of one of its
/// depth first leaves, which holds the cell's element and whose diameter is
/// a power of two no larger than the octree's.
proof fn lemma_leaves_cover<E>(t: Octree<E>, q: Point3<Number>) -> (r: ((OctantDimensions, E), nat))
    requires
        t.wf(),
        t.bounds.contains(q),
        t.lookup(q) is Some,
    ensures
        t.leaves().contains(r.0),
        r.0.0.contains(q),
        t.lookup(q) == Some(r.0.1),
        r.1 <= t.height,
        r.0.0.diameter == vstd::arithmetic::power2::pow2(r.1),
    decreases t.height,
{
    match t.data {
        OctreeData::Node(v) => {
            let ch = v@;
            lemma_halving(t.height as nat);
            crate::octree::octant_dimensions::lemma_sub_octant_contains(t.bounds, q);
            let i = t.bounds.octant_index(q);
            let r = lemma_leaves_cover(child_tree(ch, i), q);
            lemma_leaves8_contains(ch, i, r.0);
            assert(t.leaves() == leaves8(ch));
            r
        },
        OctreeData::Leaf(e) => {
            let x = (t.bounds, e);
            assert(t.leaves() == seq![x]);
            assert(t.leaves()[0] == x);
            (x, t.height as nat)
        },
        OctreeData::Empty => {
            (arbitrary(), 0)
        },
    }
}

proof fn lemma_of_size_contains<E>(s: Seq<(OctantDimensions, E)>, d: int, x: (OctantDimensions, E))
    requires
        s.contains(x),
        x.0.diameter == d,
    ensures
        leaves_of_size(s, d).contains(x),
    decreases s.len(),
{
    let k = choose|k: int| 0 <= k < s.len() && s[k] == x;
    let rest = leaves_of_size(s.drop_last(), d);
    if k == s.len() - 1 {
        assert(rest.push(s.last())[rest.len() as int] == x);
    } else {
        assert(s.drop_last()[k] == x);
        lemma_of_size_contains(s.drop_last(), d, x);
        if s.last().0.diameter == d {
            let m = choose|m: int| 0 <= m < rest.len() && rest[m] == x;
            assert(rest.push(s.last())[m] == x);
        }
    }
}

proof fn lemma_by_size_contains<E>(s: Seq<(OctantDimensions, E)>, n: nat, j: nat, x: (OctantDimensions, E))
    requires
        j < n,
        s.contains(x),
        x.0.diameter == vstd::arithmetic::power2::pow2(j),
    ensures
        leaves_by_size(s, n).contains(x),
    decreases n,
{
    let d = vstd::arithmetic::power2::pow2((n - 1) as nat) as int;
    if j == n - 1 {
        lemma_of_size_contains(s, d, x);
    } else {
        lemma_by_size_contains(s, (n - 1) as nat, j, x);
    }
    lemma_concat_contains(leaves_of_size(s, d), leaves_by_size(s, (n - 1) as nat), x);
}

/// Iteration misses no element: every filled cell of a well formed octree
/// lies in the cube of a leaf that [Octree::iter] yields, and that leaf
/// holds the cell's element.
pub proof fn law_iter_leaves_cover<E>(t: Octree<E>, q: Point3<Number>)
    requires
        t.wf(),
        t.bounds.contains(q),
        t.lookup(q) is Some,
    ensures
        exists|k: int| 0 <= k < t.level_leaves().len() && (#[trigger] t.level_leaves()[k]).0.contains(q)
            && t.lookup(q) == Some(t.level_leaves()[k].1),
{
    let r = lemma_leaves_cover(t, q);
    lemma_by_size_contains(t.leaves(), t.height as nat + 1, r.1, r.0);
    let k = choose|k: int| 0 <= k < t.level_leaves().len() && t.level_leaves()[k] == r.0;
    assert(t.level_leaves()[k].0.contains(q));
}

/// Whether `q` lies in the cube of the octant: from its bottom left front
/// corner, `diameter` cells along each axis.
pub open spec fn octant_contains<E>(o: Octant<E, Point3<Number>>, q: Point3<Number>) -> bool {
    &&& o.bottom_left_front.x <= q.x < o.bottom_left_front.x + o.diameter
    &&& o.bottom_left_front.y <= q.y < o.bottom_left_front.y + o.diameter
    &&& o.bottom_left_front.z <= q.z < o.bottom_left_front.z + o.diameter
}

/// The octants of sub octree `c`.
pub open spec fn child_octants<E>(ch: Seq<Arc<Octree<E>>>, c: int) -> Seq<Octant<E, Point3<Number>>> {
    ch[c].octant_seq()
}

/// Every octant of `s` is a cube inside the cube of `t` whose cells all
/// hold the octant's data in `t`.
pub open spec fn octants_hold<E>(t: Octree<E>, s: Seq<Octant<E, Point3<Number>>>) -> bool {
    forall|k: int, q: Point3<Number>|
        0 <= k < s.len() && #[trigger] octant_contains(s[k], q) ==> t.bounds.contains(q) && #[trigger] t.lookup(q)
            == Some(s[k].data)
}

proof fn lemma_octants_hold_concat<E>(t: Octree<E>, a: Seq<Octant<E, Point3<Number>>>, b: Seq<Octant<E, Point3<Number>>>)
    requires
        octants_hold(t, a),
        octants_hold(t, b),
    ensures
        octants_hold(t, a + b),
{
    assert forall|k: int, q: Point3<Number>| 0 <= k < (a + b).len() && #[trigger] octant_contains((a + b)[k], q) implies t.bounds.contains(q)
        && #[trigger] t.lookup(q) == Some((a + b)[k].data) by {
        if k < a.len() {
            assert((a + b)[k] == a[k]);
        } else {
            assert((a + b)[k] == b[k - a.len()]);
        }
    }
}

/// The octants of a well formed octree hold.
proof fn lemma_octants_hold<E>(t: Octree<E>)
    requires
        t.wf(),
    ensures
        octants_hold(t, t.octant_seq()),
    decreases t.height,
{
    match t.data {
        OctreeData::Node(v) => {
            let ch = v@;
            lemma_halving(t.height as nat);
            assert forall|c: int| 0 <= c < 8 implies octants_hold(t, #[trigger] child_octants(ch, c)) by {
                let u = child_tree(ch, c);
                lemma_octants_hold(u);
                lemma_sub_dims_valid(t.bounds, c);
                let s = child_octants(ch, c);
                assert forall|k: int, q: Point3<Number>| 0 <= k < s.len() && #[trigger] octant_contains(s[k], q) implies t.bounds.contains(q)
                    && #[trigger] t.lookup(q) == Some(s[k].data) by {
                    assert(u.lookup(q) == Some(s[k].data));
                    assert(t.bounds.sub_dims(c).contains(q));
                    assert(t.bounds.octant_index(q) == c);
                }
            }
            let l7 = child_octants(ch, 7);
            let l6 = child_octants(ch, 6);
            let l5 = child_octants(ch, 5);
            let l4 = child_octants(ch, 4);
            let l3 = child_octants(ch, 3);
            let l2 = child_octants(ch, 2);
            let l1 = child_octants(ch, 1);
            let l0 = child_octants(ch, 0);
            lemma_octants_hold_concat(t, l7, l6);
            lemma_octants_hold_concat(t, l7 + l6, l5);
            lemma_octants_hold_concat(t, l7 + l6 + l5, l4);
            lemma_octants_hold_concat(t, l7 + l6 + l5 + l4, l3);
            lemma_octants_hold_concat(t, l7 + l6 + l5 + l4 + l3, l2);
            lemma_octants_hold_concat(t, l7 + l6 + l5 + l4 + l3 + l2, l1);
            lemma_octants_hold_concat(t, l7 + l6 + l5 + l4 + l3 + l2 + l1, l0);
            assert(t.octant_seq() == l7 + l6 + l5 + l4 + l3 + l2 + l1 + l0);
        },
        OctreeData::Leaf(e) => {
            let s = t.octant_seq();
            assert forall|k: int, q: Point3<Number>| 0 <= k < s.len() && #[trigger] octant_contains(s[k], q) implies t.bounds.contains(q)
                && #[trigger] t.lookup(q) == Some(s[k].data) by {
                assert(s[k] == s[0]);
            }
        },
        OctreeData::Empty => {
            assert(t.octant_seq() =~= Seq::<Octant<E, Point3<Number>>>::empty());
        },
    }
}

/// Every filled cell of a well formed octree lies in the cube of one of its
/// octants, which holds the cell's element.
proof fn lemma_octants_cover<E>(t: Octree<E>, q: Point3<Number>) -> (o: Octant<E, Point3<Number>>)
    requires
        t.wf(),
        t.bounds.contains(q),
        t.lookup(q) is Some,
    ensures
        t.octant_seq().contains(o),
        octant_contains(o, q),
        t.lookup(q) == Some(o.data),
    decreases t.height,
{
    match t.data {
        OctreeData::Node(v) => {
            let ch = v@;
            lemma_halving(t.height as nat);
            crate::octree::octant_dimensions::lemma_sub_octant_contains(t.bounds, q);
            let i = t.bounds.octant_index(q);
            let o = lemma_octants_cover(child_tree(ch, i), q);
            let l7 = child_octants(ch, 7);
            let l6 = child_octants(ch, 6);
            let l5 = child_octants(ch, 5);
            let l4 = child_octants(ch, 4);
            let l3 = child_octants(ch, 3);
            let l2 = child_octants(ch, 2);
            let l1 = child_octants(ch, 1);
            let l0 = child_octants(ch, 0);
            assert(child_octants(ch, i).contains(o));
            lemma_concat_contains(l7, l6, o);
            lemma_concat_contains(l7 + l6, l5, o);
            lemma_concat_contains(l7 + l6 + l5, l4, o);
            lemma_concat_contains(l7 + l6 + l5 + l4, l3, o);
            lemma_concat_contains(l7 + l6 + l5 + l4 + l3, l2, o);
            lemma_concat_contains(l7 + l6 + l5 + l4 + l3 + l2, l1, o);
            lemma_concat_contains(l7 + l6 + l5 + l4 + l3 + l2 + l1, l0, o);
            assert(t.octant_seq() == l7 + l6 + l5 + l4 + l3 + l2 + l1 + l0);
            o
        },
        OctreeData::Leaf(e) => {
            let o = t.octant_seq()[0];
            assert(t.octant_seq().contains(o));
            o
        },
        OctreeData::Empty => {
            arbitrary()
        },
    }
}

/// Each octant that [Octree::octants] lists is the cube of a leaf: all its
/// cells lie in the octree's cube and hold the octant's data.
pub proof fn law_octants_hold<E>(t: Octree<E>, k: int, q: Point3<Number>)
    requires
        t.wf(),
        0 <= k < t.octant_seq().len(),
        octant_contains(t.octant_seq()[k], q),
    ensures
        t.bounds.contains(q),
        t.lookup(q) == Some(t.octant_seq()[k].data),
{
    lemma_octants_hold(t);
}

/// The octants that [Octree::octants] lists miss no element: every filled
/// cell lies in the cube of a listed octant that holds the cell's element.
pub proof fn law_octants_cover<E>(t: Octree<E>, q: Point3<Number>)
    requires
        t.wf(),
        t.bounds.contains(q),
        t.lookup(q) is Some,
    ensures
        exists|k: int| 0 <= k < t.octant_seq().len() && #[trigger] octant_contains(t.octant_seq()[k], q)
            && t.lookup(q) == Some(t.octant_seq()[k].data),
{
    let o = lemma_octants_cover(t, q);
    let k = choose|k: int| 0 <= k < t.octant_seq().len() && t.octant_seq()[k] == o;
    assert(octant_contains(t.octant_seq()[k], q));
}

/// Every cube in `s` has a power of two diameter no larger than `2^h`.
pub open spec fn sizes_within<E>(s: Seq<(OctantDimensions, E)>, h: nat) -> bool {
    forall|k: int| 0 <= k < s.len() ==> power_of_two_upto((#[trigger] s[k]).0.diameter as int, h)
}

/// `d` is `2^j` for some `j` no larger than `h`.
pub open spec fn power_of_two_upto(d: int, h: nat) -> bool {
    exists|j: nat| j <= h && d == #[trigger] pow2(j)
}

proof fn lemma_sizes_concat<E>(a: Seq<(OctantDimensions, E)>, b: Seq<(OctantDimensions, E)>, h: nat)
    requires
        sizes_within(a, h),
        sizes_within(b, h),
    ensures
        sizes_within(a + b, h),
{
    assert forall|k: int| 0 <= k < (a + b).len() implies power_of_two_upto((#[trigger] (a + b)[k]).0.diameter as int, h) by {
        if k < a.len() {
            assert((a + b)[k] == a[k]);
        } else {
            assert((a + b)[k] == b[k - a.len()]);
        }
    }
}

/// The leaves of a well formed octree have power of two diameters no larger than its own.
proof fn lemma_leaf_sizes<E>(t: Octree<E>)
    requires
        t.wf(),
    ensures
        sizes_within(t.leaves(), t.height as nat),
    decreases t.height,
{
    match t.data {
        OctreeData::Node(v) => {
            let ch = v@;
            let h = t.height as nat;
            lemma_halving(h);
            assert forall|c: int| 0 <= c < 8 implies sizes_within(#[trigger] child_leaves(ch, c), h) by {
                lemma_leaf_sizes(child_tree(ch, c));
                let s = child_leaves(ch, c);
                assert forall|k: int| 0 <= k < s.len() implies power_of_two_upto((#[trigger] s[k]).0.diameter as int, h) by {
                    assert(power_of_two_upto(s[k].0.diameter as int, (h - 1) as nat));
                    let j = choose|j: nat| j <= (h - 1) as nat && s[k].0.diameter == #[trigger] pow2(j);
                    assert(j <= h && s[k].0.diameter == pow2(j));
                }
            }
            let l7 = child_leaves(ch, 7);
            let l6 = child_leaves(ch, 6);
            let l5 = child_leaves(ch, 5);
            let l4 = child_leaves(ch, 4);
            let l3 = child_leaves(ch, 3);
            let l2 = child_leaves(ch, 2);
            let l1 = child_leaves(ch, 1);
            let l0 = child_leaves(ch, 0);
            lemma_sizes_concat(l0, l1, h);
            lemma_sizes_concat(l0 + l1, l2, h);
            lemma_sizes_concat(l0 + l1 + l2, l3, h);
            lemma_sizes_concat(l0 + l1 + l2 + l3, l4, h);
            lemma_sizes_concat(l0 + l1 + l2 + l3 + l4, l5, h);
            lemma_sizes_concat(l0 + l1 + l2 + l3 + l4 + l5, l6, h);
            lemma_sizes_concat(l0 + l1 + l2 + l3 + l4 + l5 + l6, l7, h);
            assert(t.leaves() == leaves8(ch));
        },
        OctreeData::Leaf(e) => {
            assert(t.leaves() == seq![(t.bounds, e)]);
            assert(t.leaves()[0].0.diameter == pow2(t.height as nat));
            assert(power_of_two_upto(t.leaves()[0].0.diameter as int, t.height as nat));
        },
        OctreeData::Empty => {
            assert(t.leaves() =~= Seq::<(OctantDimensions, E)>::empty());
        },
    }
}

proof fn lemma_of_size_count<E>(s: Seq<(OctantDimensions, E)>, d: int, x: (OctantDimensions, E))
    ensures
        leaves_of_size(s, d).to_multiset().count(x) == if x.0.diameter == d { s.to_multiset().count(x) } else { 0 },
    decreases s.len(),
{
    broadcast use vstd::multiset::group_multiset_axioms;
    broadcast use vstd::seq_lib::group_to_multiset_ensures;
    if s.len() == 0 {
        assert(leaves_of_size(s, d) =~= Seq::<(OctantDimensions, E)>::empty());
    } else {
        lemma_of_size_count(s.drop_last(), d, x);
        assert(s =~= s.drop_last().push(s.last()));
    }
}

proof fn lemma_by_size_count<E>(s: Seq<(OctantDimensions, E)>, n: nat, x: (OctantDimensions, E), j: nat)
    requires
        x.0.diameter == pow2(j),
    ensures
        leaves_by_size(s, n).to_multiset().count(x) == if j < n { s.to_multiset().count(x) } else { 0 },
    decreases n,
{
    broadcast use vstd::multiset::group_multiset_axioms;
    broadcast use vstd::seq_lib::group_to_multiset_ensures;
    if n == 0 {
        assert(leaves_by_size(s, n) =~= Seq::<(OctantDimensions, E)>::empty());
    } else {
        let d = pow2((n - 1) as nat) as int;
        lemma_of_size_count(s, d, x);
        lemma_by_size_count(s, (n - 1) as nat, x, j);
        vstd::seq_lib::lemma_multiset_commutative(leaves_of_size(s, d), leaves_by_size(s, (n - 1) as nat));
        if j < n - 1 {
            vstd::arithmetic::power2::lemma_pow2_strictly_increases(j, (n - 1) as nat);
        } else if j > n - 1 {
            vstd::arithmetic::power2::lemma_pow2_strictly_increases((n - 1) as nat, j);
        }
    }
}

/// Level order and depth first iteration yield the same leaves: the leaves
/// that [Octree::iter] yields are those of [Octree::leaves], each as often,
/// only in another order.
pub proof fn law_iter_permutes_leaves<E>(t: Octree<E>)
    requires
        t.wf(),
    ensures
        t.level_leaves().to_multiset() == t.leaves().to_multiset(),
{
    broadcast use vstd::multiset::group_multiset_axioms;
    broadcast use vstd::seq_lib::to_multiset_contains;
    lemma_leaf_sizes(t);
    let s = t.leaves();
    let n = t.height as nat + 1;
    assert forall|x: (OctantDimensions, E)| t.level_leaves().to_multiset().count(x) == s.to_multiset().count(x) by {
        if s.to_multiset().count(x) > 0 {
            assert(s.contains(x));
            let k = choose|k: int| 0 <= k < s.len() && s[k] == x;
            assert(power_of_two_upto(s[k].0.diameter as int, t.height as nat));
            let j = choose|j: nat| j <= t.height as nat && s[k].0.diameter == #[trigger] pow2(j);
            lemma_by_size_count(s, n, x, j);
        } else {
            lemma_by_size_none(s, n, x);
        }
    }
    assert(t.level_leaves().to_multiset() =~= s.to_multiset());
}

proof fn lemma_by_size_none<E>(s: Seq<(OctantDimensions, E)>, n: nat, x: (OctantDimensions, E))
    requires
        s.to_multiset().count(x) == 0,
    ensures
        leaves_by_size(s, n).to_multiset().count(x) == 0,
    decreases n,
{
    broadcast use vstd::multiset::group_multiset_axioms;
    broadcast use vstd::seq_lib::group_to_multiset_ensures;
    if n == 0 {
        assert(leaves_by_size(s, n) =~= Seq::<(OctantDimensions, E)>::empty());
    } else {
        let d = pow2((n - 1) as nat) as int;
        lemma_of_size_count(s, d, x);
        lemma_by_size_none(s, (n - 1) as nat, x);
        vstd::seq_lib::lemma_multiset_commutative(leaves_of_size(s, d), leaves_by_size(s, (n - 1) as nat));
    }
}

/// The octant as a leaf: its cube and its data.
pub open spec fn octant_leaf<E>(o: Octant<E, Point3<Number>>) -> (OctantDimensions, E) {
    (OctantDimensions { bottom_left: o.bottom_left_front, diameter: o.diameter as u16 }, o.data)
}

/// The octants of `s` as leaves, in order.
pub open spec fn octant_entries<E>(s: Seq<Octant<E, Point3<Number>>>) -> Seq<(OctantDimensions, E)> {
    s.map_values(|o: Octant<E, Point3<Number>>| octant_leaf(o))
}

proof fn lemma_entries_concat<E>(a: Seq<Octant<E, Point3<Number>>>, b: Seq<Octant<E, Point3<Number>>>)
    ensures
        octant_entries(a + b).to_multiset() == octant_entries(a).to_multiset().add(octant_entries(b).to_multiset()),
{
    assert(octant_entries(a + b) =~= octant_entries(a) + octant_entries(b));
    vstd::seq_lib::lemma_multiset_commutative(octant_entries(a), octant_entries(b));
}

/// The octants that [Octree::octants] lists are the leaves of the octree,
/// each with its cube's corner and diameter and its element, each as often
/// as [Octree::leaves] has it, only in another order.
pub proof fn law_octants_are_leaves<E>(t: Octree<E>)
    requires
        t.wf(),
    ensures
        octant_entries(t.octant_seq()).to_multiset() == t.leaves().to_multiset(),
    decreases t.height,
{
    broadcast use vstd::multiset::group_multiset_axioms;
    broadcast use vstd::seq_lib::group_to_multiset_ensures;
    match t.data {
        OctreeData::Node(v) => {
            let ch = v@;
            lemma_halving(t.height as nat);
            assert forall|c: int| 0 <= c < 8 implies octant_entries(#[trigger] child_octants(ch, c)).to_multiset()
                == child_leaves(ch, c).to_multiset() by {
                law_octants_are_leaves(child_tree(ch, c));
            }
            let o7 = child_octants(ch, 7);
            let o6 = child_octants(ch, 6);
            let o5 = child_octants(ch, 5);
            let o4 = child_octants(ch, 4);
            let o3 = child_octants(ch, 3);
            let o2 = child_octants(ch, 2);
            let o1 = child_octants(ch, 1);
            let o0 = child_octants(ch, 0);
            lemma_entries_concat(o7, o6);
            lemma_entries_concat(o7 + o6, o5);
            lemma_entries_concat(o7 + o6 + o5, o4);
            lemma_entries_concat(o7 + o6 + o5 + o4, o3);
            lemma_entries_concat(o7 + o6 + o5 + o4 + o3, o2);
            lemma_entries_concat(o7 + o6 + o5 + o4 + o3 + o2, o1);
            lemma_entries_concat(o7 + o6 + o5 + o4 + o3 + o2 + o1, o0);
            assert(t.octant_seq() == o7 + o6 + o5 + o4 + o3 + o2 + o1 + o0);
            let l7 = child_leaves(ch, 7);
            let l6 = child_leaves(ch, 6);
            let l5 = child_leaves(ch, 5);
            let l4 = child_leaves(ch, 4);
            let l3 = child_leaves(ch, 3);
            let l2 = child_leaves(ch, 2);
            let l1 = child_leaves(ch, 1);
            let l0 = child_leaves(ch, 0);
            vstd::seq_lib::lemma_multiset_commutative(l0, l1);
            vstd::seq_lib::lemma_multiset_commutative(l0 + l1, l2);
            vstd::seq_lib::lemma_multiset_commutative(l0 + l1 + l2, l3);
            vstd::seq_lib::lemma_multiset_commutative(l0 + l1 + l2 + l3, l4);
            vstd::seq_lib::lemma_multiset_commutative(l0 + l1 + l2 + l3 + l4, l5);
            vstd::seq_lib::lemma_multiset_commutative(l0 + l1 + l2 + l3 + l4 + l5, l6);
            vstd::seq_lib::lemma_multiset_commutative(l0 + l1 + l2 + l3 + l4 + l5 + l6, l7);
            assert(t.leaves() == leaves8(ch));
            assert(octant_entries(t.octant_seq()).to_multiset() =~= t.leaves().to_multiset());
        },
        OctreeData::Leaf(e) => {
            assert(octant_entries(t.octant_seq()) =~= t.leaves());
        },
        OctreeData::Empty => {
            assert(octant_entries(t.octant_seq()) =~= t.leaves());
        },
    }
}

} // verus!
