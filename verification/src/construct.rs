use vstd::prelude::*;

verus! {

use vstd::multiset::Multiset;
use vstd::seq_lib::group_to_multiset_ensures;
use vstd::seq_lib::lemma_multiset_commutative;

use crate::dim::{axis_of, Dim};
use crate::point::{axis_value, Point};
use crate::{tree_ids, tree_points, tree_size, KdNode};

/// `s` is sorted by the coordinate on `axis`, ascending.
pub open spec fn sorted_by_axis(s: Seq<Point>, axis: Dim) -> bool {
    forall|i: int, j: int|
        0 <= i <= j < s.len() ==> axis_value(#[trigger] s[i], axis) <= axis_value(
            #[trigger] s[j],
            axis,
        )
}

/// Insert `p` into `s` after every trailing element whose coordinate on
/// `axis` exceeds `p`'s has been stepped over: on a sorted sequence, a
/// stable insertion.
pub open spec fn place_sorted(s: Seq<Point>, p: Point, axis: Dim) -> Seq<Point>
    decreases s.len(),
{
    if s.len() == 0 {
        seq![p]
    } else if axis_value(s.last(), axis) <= axis_value(p, axis) {
        s.push(p)
    } else {
        place_sorted(s.drop_last(), p, axis).push(s.last())
    }
}

/// Sort `s` by the coordinate on `axis`, keeping elements with equal
/// coordinates in their original relative order: an insertion sort.
pub open spec fn sort_by_axis(s: Seq<Point>, axis: Dim) -> Seq<Point>
    decreases s.len(),
{
    if s.len() == 0 {
        Seq::empty()
    } else {
        place_sorted(sort_by_axis(s.drop_last(), axis), s.last(), axis)
    }
}

proof fn lemma_place_sorted_multiset(s: Seq<Point>, p: Point, axis: Dim)
    ensures
        place_sorted(s, p, axis).len() == s.len() + 1,
        place_sorted(s, p, axis).to_multiset() == s.to_multiset().insert(p),
        forall|i: int|
            0 <= i < place_sorted(s, p, axis).len() ==> (#[trigger] place_sorted(s, p, axis)[i]
                == p || s.contains(place_sorted(s, p, axis)[i])),
    decreases s.len(),
{
    broadcast use group_to_multiset_ensures;
    broadcast use vstd::multiset::group_multiset_axioms;

    if s.len() == 0 {
        assert(seq![p] =~= Seq::<Point>::empty().push(p));
        assert(Seq::<Point>::empty().to_multiset() =~= Multiset::<Point>::empty());
        assert(place_sorted(s, p, axis).to_multiset() =~= s.to_multiset().insert(p));
    } else if axis_value(s.last(), axis) <= axis_value(p, axis) {
        assert(place_sorted(s, p, axis).to_multiset() =~= s.to_multiset().insert(p));
    } else {
        lemma_place_sorted_multiset(s.drop_last(), p, axis);
        assert(s =~= s.drop_last().push(s.last()));
        assert(s.to_multiset() == s.drop_last().push(s.last()).to_multiset());
        assert(place_sorted(s, p, axis).to_multiset() =~= s.to_multiset().insert(p));
        assert forall|i: int| 0 <= i < place_sorted(s, p, axis).len() implies (
        #[trigger] place_sorted(s, p, axis)[i] == p || s.contains(place_sorted(s, p, axis)[i])) by {
            let r = place_sorted(s, p, axis);
            let inner = place_sorted(s.drop_last(), p, axis);
            if i < r.len() - 1 {
                assert(r[i] == inner[i]);
                if inner[i] != p {
                    let j = choose|j: int|
                        0 <= j < s.drop_last().len() && s.drop_last()[j] == inner[i];
                    assert(s[j] == inner[i]);
                }
            } else {
                assert(r[i] == s.last());
            }
        }
    }
}

proof fn lemma_place_sorted_sorted(s: Seq<Point>, p: Point, axis: Dim)
    requires
        sorted_by_axis(s, axis),
    ensures
        sorted_by_axis(place_sorted(s, p, axis), axis),
    decreases s.len(),
{
    lemma_place_sorted_multiset(s, p, axis);
    if s.len() == 0 {
    } else if axis_value(s.last(), axis) <= axis_value(p, axis) {
        let r = s.push(p);
        assert forall|i: int, j: int| 0 <= i <= j < r.len() implies axis_value(r[i], axis)
            <= axis_value(r[j], axis) by {
            if j < r.len() - 1 {
                assert(r[i] == s[i] && r[j] == s[j]);
            } else if i < r.len() - 1 {
                assert(r[i] == s[i]);
                assert(axis_value(s[i], axis) <= axis_value(s[s.len() - 1], axis));
            }
        }
    } else {
        assert(sorted_by_axis(s.drop_last(), axis)) by {
            assert forall|i: int, j: int| 0 <= i <= j < s.len() - 1 implies axis_value(
                #[trigger] s.drop_last()[i],
                axis,
            ) <= axis_value(#[trigger] s.drop_last()[j], axis) by {
                assert(s.drop_last()[i] == s[i] && s.drop_last()[j] == s[j]);
            }
        }
        lemma_place_sorted_sorted(s.drop_last(), p, axis);
        lemma_place_sorted_multiset(s.drop_last(), p, axis);
        let inner = place_sorted(s.drop_last(), p, axis);
        let r = inner.push(s.last());
        assert forall|i: int, j: int| 0 <= i <= j < r.len() implies axis_value(r[i], axis)
            <= axis_value(r[j], axis) by {
            if j < r.len() - 1 {
                assert(r[i] == inner[i] && r[j] == inner[j]);
            } else if i < r.len() - 1 {
                assert(r[i] == inner[i]);
                // every element of the inner placement is either p, which is
                // below the last element, or an element of the prefix
                if inner[i] == p {
                } else {
                    let m = choose|m: int|
                        0 <= m < s.drop_last().len() && s.drop_last()[m] == inner[i];
                    assert(s[m] == inner[i]);
                    assert(axis_value(s[m], axis) <= axis_value(s[s.len() - 1], axis));
                }
            }
        }
    }
}

/// On a sorted sequence, the stable placement of `p` inserts it at the
/// boundary index `k` between the elements at most `p` and those above it.
proof fn lemma_place_sorted_at_index(s: Seq<Point>, p: Point, axis: Dim, k: int)
    requires
        sorted_by_axis(s, axis),
        0 <= k <= s.len(),
        forall|j: int| 0 <= j < k ==> axis_value(#[trigger] s[j], axis) <= axis_value(p, axis),
        forall|j: int| k <= j < s.len() ==> axis_value(#[trigger] s[j], axis) > axis_value(p, axis),
    ensures
        place_sorted(s, p, axis) == s.insert(k, p),
    decreases s.len(),
{
    if s.len() == 0 {
        assert(place_sorted(s, p, axis) =~= s.insert(0, p));
    } else if axis_value(s.last(), axis) <= axis_value(p, axis) {
        assert(k == s.len()) by {
            if k < s.len() {
                assert(axis_value(s[s.len() - 1], axis) > axis_value(p, axis));
            }
        }
        assert(place_sorted(s, p, axis) =~= s.insert(k, p));
    } else {
        assert(k < s.len()) by {
            if k == s.len() {
                assert(axis_value(s[s.len() - 1], axis) <= axis_value(p, axis));
            }
        }
        assert(sorted_by_axis(s.drop_last(), axis)) by {
            assert forall|i: int, j: int| 0 <= i <= j < s.len() - 1 implies axis_value(
                #[trigger] s.drop_last()[i],
                axis,
            ) <= axis_value(#[trigger] s.drop_last()[j], axis) by {
                assert(s.drop_last()[i] == s[i] && s.drop_last()[j] == s[j]);
            }
        }
        assert forall|j: int| 0 <= j < k implies axis_value(#[trigger] s.drop_last()[j], axis)
            <= axis_value(p, axis) by {
            assert(s.drop_last()[j] == s[j]);
        }
        assert forall|j: int| k <= j < s.len() - 1 implies axis_value(
            #[trigger] s.drop_last()[j],
            axis,
        ) > axis_value(p, axis) by {
            assert(s.drop_last()[j] == s[j]);
        }
        lemma_place_sorted_at_index(s.drop_last(), p, axis, k);
        assert(place_sorted(s, p, axis) =~= s.insert(k, p));
    }
}

/// What sorting guarantees: the result has the same length and the same
/// multiset of elements, and is ordered on the given axis.
pub proof fn lemma_sort_by_axis(s: Seq<Point>, axis: Dim)
    ensures
        sort_by_axis(s, axis).len() == s.len(),
        sort_by_axis(s, axis).to_multiset() == s.to_multiset(),
        sorted_by_axis(sort_by_axis(s, axis), axis),
    decreases s.len(),
{
    broadcast use group_to_multiset_ensures;
    broadcast use vstd::multiset::group_multiset_axioms;

    if s.len() > 0 {
        lemma_sort_by_axis(s.drop_last(), axis);
        lemma_place_sorted_multiset(sort_by_axis(s.drop_last(), axis), s.last(), axis);
        lemma_place_sorted_sorted(sort_by_axis(s.drop_last(), axis), s.last(), axis);
        assert(s =~= s.drop_last().push(s.last()));
        assert(s.to_multiset() == s.drop_last().push(s.last()).to_multiset());
        assert(sort_by_axis(s, axis).to_multiset() =~= s.to_multiset());
    }
}

/// Sort the points by their coordinate on `axis`, stably.
fn sort_points(points: &Vec<Point>, axis: &Dim) -> (out: Vec<Point>)
    ensures
        out@ == sort_by_axis(points@, *axis),
{
    let mut out: Vec<Point> = Vec::new();
    let mut i: usize = 0;
    proof {
        assert(points@.subrange(0, 0) =~= Seq::<Point>::empty());
    }
    while i < points.len()
        invariant
            i <= points@.len(),
            out@ == sort_by_axis(points@.subrange(0, i as int), *axis),
        decreases points@.len() - i,
    {
        let p = points[i];
        let mut k: usize = 0;
        while k < out.len() && !out[k].gt(&p, axis)
            invariant
                k <= out@.len(),
                forall|j: int|
                    0 <= j < k ==> axis_value(#[trigger] out@[j], *axis) <= axis_value(p, *axis),
                out@ == sort_by_axis(points@.subrange(0, i as int), *axis),
            decreases out@.len() - k,
        {
            k += 1;
        }
        proof {
            lemma_sort_by_axis(points@.subrange(0, i as int), *axis);
            assert forall|j: int| k <= j < out@.len() implies axis_value(#[trigger] out@[j], *axis)
                > axis_value(p, *axis) by {
                assert(axis_value(out@[k as int], *axis) <= axis_value(out@[j], *axis));
            }
            lemma_place_sorted_at_index(out@, p, *axis, k as int);
            assert(points@.subrange(0, i + 1).drop_last() =~= points@.subrange(0, i as int));
            assert(points@.subrange(0, i + 1).last() == points@[i as int]);
        }
        out.insert(k, p);
        i += 1;
    }
    proof {
        assert(points@.subrange(0, points@.len() as int) =~= points@);
    }
    out
}

/// The sort position of the median: the lower of the two middle elements
/// for an even count, the middle element otherwise.
pub open spec fn median_index_of(len: int) -> int {
    if len % 2 == 0 {
        len / 2 - 1
    } else {
        len / 2
    }
}

impl KdNode {
    /// Split the points into the median on `axis` and the two halves around
    /// it: the points sorted strictly before the median (returned as the
    /// "right" input) and those strictly after it (the "left" input). Ties
    /// on the axis coordinate keep their original relative order.
    pub fn split_on_median(points: Vec<Point>, axis: &Dim) -> (r: (Point, Vec<Point>, Vec<Point>))
        requires
            points@.len() >= 1,
        ensures
            ({
                let s = sort_by_axis(points@, *axis);
                let m = median_index_of(points@.len() as int);
                &&& r.0 == s[m]
                &&& r.1@ == s.subrange(m + 1, s.len() as int)
                &&& r.2@ == s.subrange(0, m)
            }),
    {
        proof {
            lemma_sort_by_axis(points@, *axis);
        }
        let sorted: Vec<Point> = sort_points(&points, axis);
        let len: usize = sorted.len();
        let mi: usize = if len % 2 == 0 {
            len / 2 - 1
        } else {
            len / 2
        };
        let median: Point = sorted[mi];
        let mut right: Vec<Point> = Vec::new();
        let mut idx: usize = 0;
        proof {
            assert(sorted@.subrange(0, 0) =~= Seq::<Point>::empty());
        }
        while idx < mi
            invariant
                idx <= mi < sorted@.len(),
                right@ == sorted@.subrange(0, idx as int),
            decreases mi - idx,
        {
            right.push(sorted[idx]);
            proof {
                assert(sorted@.subrange(0, idx + 1) =~= sorted@.subrange(0, idx as int).push(
                    sorted@[idx as int],
                ));
            }
            idx += 1;
        }
        let mut left: Vec<Point> = Vec::new();
        let mut idx2: usize = mi + 1;
        proof {
            assert(sorted@.subrange(mi + 1, mi + 1) =~= Seq::<Point>::empty());
        }
        while idx2 < len
            invariant
                mi < idx2 <= len == sorted@.len(),
                left@ == sorted@.subrange(mi + 1, idx2 as int),
            decreases len - idx2,
        {
            left.push(sorted[idx2]);
            proof {
                assert(sorted@.subrange(mi + 1, idx2 + 1) =~= sorted@.subrange(
                    mi + 1,
                    idx2 as int,
                ).push(sorted@[idx2 as int]));
            }
            idx2 += 1;
        }
        (median, left, right)
    }
}

/// The tree built from `s` standing at `depth`, with node indices assigned
/// from `next` on, first to the node itself, then within its "left"
/// subtree, then within its "right" subtree; the second component is the
/// next unused index.
///
/// The node's axis is the axis of the next depth; a singleton becomes a
/// leaf; otherwise the points are sorted on that axis, the median becomes
/// the node's point, the sorted prefix before it feeds the "right" subtree
/// and the sorted suffix after it the "left" subtree.
pub open spec fn build_at(s: Seq<Point>, depth: nat, next: int) -> (KdNode, int)
    decreases s.len(),
    via build_at_decreases
{
    if s.len() == 0 {
        (KdNode::Empty, next)
    } else if s.len() == 1 {
        (
            KdNode::Node {
                id: next as u64,
                point: s[0],
                dim: axis_of(depth + 1),
                left: Box::new(KdNode::Empty),
                right: Box::new(KdNode::Empty),
            },
            next + 1,
        )
    } else {
        let axis = axis_of(depth + 1);
        let sorted = sort_by_axis(s, axis);
        let m = median_index_of(s.len() as int);
        let lres = build_at(sorted.subrange(m + 1, sorted.len() as int), depth + 1, next + 1);
        let rres = build_at(sorted.subrange(0, m), depth + 1, lres.1);
        (
            KdNode::Node {
                id: next as u64,
                point: sorted[m],
                dim: axis,
                left: Box::new(lres.0),
                right: Box::new(rres.0),
            },
            rres.1,
        )
    }
}

#[via_fn]
proof fn build_at_decreases(s: Seq<Point>, depth: nat, next: int) {
    if s.len() >= 2 {
        lemma_sort_by_axis(s, axis_of(depth + 1));
    }
}

/// The model of the empty tree.
proof fn lemma_empty_model()
    ensures
        tree_size(KdNode::Empty) == 0,
        tree_points(KdNode::Empty) == Multiset::<Point>::empty(),
        tree_ids(KdNode::Empty) == Set::<u64>::empty(),
        crate::distinct_ids(KdNode::Empty),
{
}

/// A sequence of one element holds exactly that element.
proof fn lemma_singleton_multiset(s: Seq<Point>)
    requires
        s.len() == 1,
    ensures
        s.to_multiset() == Multiset::<Point>::empty().insert(s[0]),
{
    broadcast use group_to_multiset_ensures;
    broadcast use vstd::multiset::group_multiset_axioms;

    assert(s =~= Seq::<Point>::empty().push(s[0]));
    assert(Seq::<Point>::empty().to_multiset() =~= Multiset::<Point>::empty());
    assert(Seq::<Point>::empty().push(s[0]).to_multiset() =~= Seq::<
        Point,
    >::empty().to_multiset().insert(s[0]));
}

/// The model of a built tree: it holds exactly the input points, one node
/// each, under the indices `next .. next + len`, all distinct.
#[verifier::rlimit(50)]
pub proof fn lemma_build_at_model(s: Seq<Point>, depth: nat, next: int)
    requires
        0 <= next,
        next + s.len() <= u64::MAX,
    ensures
        build_at(s, depth, next).1 == next + s.len(),
        tree_size(build_at(s, depth, next).0) == s.len(),
        tree_points(build_at(s, depth, next).0) == s.to_multiset(),
        tree_ids(build_at(s, depth, next).0) =~= Set::new(
            |i: u64| next <= i < next + s.len(),
        ),
        crate::distinct_ids(build_at(s, depth, next).0),
        build_at(s, depth, next).0 is Node <==> s.len() > 0,
    decreases s.len(),
{
    broadcast use group_to_multiset_ensures;
    broadcast use vstd::multiset::group_multiset_axioms;

    let r = build_at(s, depth, next);
    if s.len() == 0 {
        assert(s.to_multiset() =~= Multiset::<Point>::empty());
        assert(tree_points(r.0) =~= s.to_multiset());
        assert(tree_ids(r.0) =~= Set::new(|i: u64| next <= i < next + s.len()));
    } else if s.len() == 1 {
        lemma_empty_model();
        lemma_singleton_multiset(s);
        assert(tree_points(r.0) =~= s.to_multiset());
        assert(tree_ids(r.0) =~= Set::new(|i: u64| next <= i < next + s.len())) by {
            assert(tree_ids(r.0) =~= Set::<u64>::empty().insert(next as u64));
        }
    } else {
        let axis = axis_of(depth + 1);
        lemma_sort_by_axis(s, axis);
        let sorted = sort_by_axis(s, axis);
        let m = median_index_of(s.len() as int);
        let lp = sorted.subrange(m + 1, sorted.len() as int);
        let rp = sorted.subrange(0, m);
        lemma_build_at_model(lp, depth + 1, next + 1);
        lemma_build_at_model(rp, depth + 1, next + 1 + lp.len());
        let lres = build_at(lp, depth + 1, next + 1);
        let rres = build_at(rp, depth + 1, lres.1);
        assert(r.0 == (KdNode::Node {
            id: next as u64,
            point: sorted[m],
            dim: axis,
            left: Box::new(lres.0),
            right: Box::new(rres.0),
        }));
        // the sorted sequence splits into prefix, median, suffix
        assert(tree_points(r.0) == s.to_multiset()) by {
            assert(sorted =~= (rp + seq![sorted[m]]) + lp);
            lemma_multiset_commutative(rp + seq![sorted[m]], lp);
            lemma_multiset_commutative(rp, seq![sorted[m]]);
            lemma_singleton_multiset(seq![sorted[m]]);
            assert(tree_points(r.0) == tree_points(lres.0).add(tree_points(rres.0)).insert(
                sorted[m],
            ));
            assert(tree_points(r.0) =~= sorted.to_multiset());
        }
        let ids_l = Set::new(|i: u64| next + 1 <= i < next + 1 + lp.len());
        let ids_r = Set::new(|i: u64| next + 1 + lp.len() <= i < next + s.len());
        assert(tree_ids(r.0) =~= Set::new(|i: u64| next <= i < next + s.len())) by {
            assert(tree_ids(r.0) =~= ids_l.union(ids_r).insert(next as u64));
        }
        assert(crate::distinct_ids(r.0)) by {
            assert(!tree_ids(lres.0).contains(next as u64));
            assert(!tree_ids(rres.0).contains(next as u64));
            assert(tree_ids(lres.0).disjoint(tree_ids(rres.0))) by {
                assert(forall|i: u64| !(ids_l.contains(i) && ids_r.contains(i)));
            }
        }
    }
}

impl KdNode {
    fn _build(points: Vec<Point>, depth: u64, next: u64) -> (r: (Self, u64))
        requires
            depth + points@.len() <= u64::MAX,
            next + points@.len() <= u64::MAX,
        ensures
            r.0 == build_at(points@, depth as nat, next as int).0,
            r.1 == build_at(points@, depth as nat, next as int).1,
        decreases points@.len(),
    {
        // End recursion if there are one or no points
        if points.len() == 0 {
            return (KdNode::Empty, next);
        }
        // Increment the dimension
        let next_depth: u64 = depth + 1;
        if points.len() == 1 {
            return (
                KdNode::Node {
                    id: next,
                    point: points[0],
                    dim: Dim::from_depth((next_depth % 2) as usize),
                    left: Box::new(KdNode::Empty),
                    right: Box::new(KdNode::Empty),
                },
                next + 1,
            );
        }
        // Choose axis
        let axis = Dim::from_depth((next_depth % 2) as usize);
        proof {
            lemma_sort_by_axis(points@, axis_of(depth as nat + 1));
        }
        // Get median
        let (median, left_pts, right_pts): (Point, Vec<Point>, Vec<Point>) = Self::split_on_median(
            points,
            &axis,
        );
        proof {
            lemma_build_at_model(left_pts@, depth as nat + 1, next as int + 1);
        }
        let (left_node, n1) = Self::_build(left_pts, next_depth, next + 1);
        let (right_node, n2) = Self::_build(right_pts, next_depth, n1);
        (
            KdNode::Node {
                id: next,
                point: median,
                dim: axis,
                left: Box::new(left_node),
                right: Box::new(right_node),
            },
            n2,
        )
    }

    /// Build a balanced tree from a set of points.
    ///
    /// The tree holds exactly the given points; its node indices are
    /// `0 .. points.len()`, pairwise distinct.
    pub fn build(points: Vec<Point>) -> (t: Self)
        requires
            points@.len() < u64::MAX,
        ensures
            t == build_at(points@, 1, 0).0,
            crate::well_formed(t),
            tree_points(t) == points@.to_multiset(),
            tree_size(t) == points@.len(),
            t is Node <==> points@.len() > 0,
            crate::laws::build_partition_ok(t),
            crate::laws::dims_ok(t, 0),
    {
        proof {
            lemma_build_at_model(points@, 1, 0);
            crate::laws::lemma_build_partition(points@, 1, 0);
            crate::laws::lemma_dims_ok_parity(build_at(points@, 1, 0).0, 2, 0);
        }
        let (t, _next) = Self::_build(points, 1, 0);
        t
    }
}

} // verus!
