use vstd::prelude::*;

verus! {

use vstd::multiset::Multiset;

use crate::construct::{build_at, lemma_build_at_model, lemma_sort_by_axis, median_index_of,
    sort_by_axis};
use crate::dim::axis_of;
use crate::point::axis_value;
use crate::{
    distinct_ids, drill_path, insert_at, is_subtree, node_id, node_point, tree_ids, tree_points,
    tree_size, KdNode,
};
use crate::Point;

/// How insertion changes the tree's model: one more node, holding `item`,
/// with the fresh index; a fresh index keeps the indices distinct.
pub proof fn lemma_insert_at_model(n: KdNode, item: Point, depth: nat, fresh: u64)
    ensures
        tree_points(insert_at(n, item, depth, fresh)) == tree_points(n).insert(item),
        tree_size(insert_at(n, item, depth, fresh)) == tree_size(n) + 1,
        tree_ids(insert_at(n, item, depth, fresh)) == tree_ids(n).insert(fresh),
        crate::distinct_ids(n) && !tree_ids(n).contains(fresh) ==> crate::distinct_ids(
            insert_at(n, item, depth, fresh),
        ),
    decreases n,
{
    broadcast use vstd::multiset::group_multiset_axioms;

    match n {
        KdNode::Empty => {
            assert(tree_points(insert_at(n, item, depth, fresh)) =~= tree_points(n).insert(item));
            assert(tree_ids(insert_at(n, item, depth, fresh)) =~= tree_ids(n).insert(fresh));
        },
        KdNode::Node { id, point, dim, left, right } => {
            let r = insert_at(n, item, depth, fresh);
            if crate::point::axis_value(point, crate::dim::axis_of(depth + 1))
                > crate::point::axis_value(item, crate::dim::axis_of(depth + 1)) {
                lemma_insert_at_model(*right, item, depth + 1, fresh);
                assert(tree_points(r) =~= tree_points(n).insert(item));
                assert(tree_ids(r) =~= tree_ids(n).insert(fresh));
            } else {
                lemma_insert_at_model(*left, item, depth + 1, fresh);
                assert(tree_points(r) =~= tree_points(n).insert(item));
                assert(tree_ids(r) =~= tree_ids(n).insert(fresh));
            }
        },
    }
}

/// Every tree is a subtree of itself.
pub proof fn lemma_subtree_refl(n: KdNode)
    ensures
        is_subtree(n, n),
{
}

/// The subtree relation is transitive.
pub proof fn lemma_subtree_trans(a: KdNode, b: KdNode, c: KdNode)
    requires
        is_subtree(a, b),
        is_subtree(b, c),
    ensures
        is_subtree(a, c),
    decreases a,
{
    if a != b {
        match a {
            KdNode::Node { left, right, .. } => {
                if is_subtree(*left, b) {
                    lemma_subtree_trans(*left, b, c);
                } else {
                    lemma_subtree_trans(*right, b, c);
                }
            },
            KdNode::Empty => {},
        }
    }
}

/// The point of any internal subtree node occurs among the tree's points.
pub proof fn lemma_subtree_point_in_tree(n: KdNode, m: KdNode)
    requires
        is_subtree(n, m),
        m is Node,
    ensures
        tree_points(n).count(node_point(m)) > 0,
    decreases n,
{
    broadcast use vstd::multiset::group_multiset_axioms;

    if n == m {
    } else {
        match n {
            KdNode::Node { left, right, .. } => {
                if is_subtree(*left, m) {
                    lemma_subtree_point_in_tree(*left, m);
                } else {
                    lemma_subtree_point_in_tree(*right, m);
                }
            },
            KdNode::Empty => {},
        }
    }
}

/// The index of any internal subtree node occurs among the tree's indices.
pub proof fn lemma_subtree_id_in_tree(n: KdNode, m: KdNode)
    requires
        is_subtree(n, m),
        m is Node,
    ensures
        tree_ids(n).contains(node_id(m)),
    decreases n,
{
    if n == m {
    } else {
        match n {
            KdNode::Node { left, right, .. } => {
                if is_subtree(*left, m) {
                    lemma_subtree_id_in_tree(*left, m);
                } else {
                    lemma_subtree_id_in_tree(*right, m);
                }
            },
            KdNode::Empty => {},
        }
    }
}

/// In a tree with pairwise distinct node indices, two internal subtree nodes
/// with the same index are the same node.
pub proof fn lemma_subtree_same_id(n: KdNode, a: KdNode, b: KdNode)
    requires
        distinct_ids(n),
        is_subtree(n, a),
        is_subtree(n, b),
        a is Node,
        b is Node,
        node_id(a) == node_id(b),
    ensures
        a == b,
    decreases n,
{
    match n {
        KdNode::Node { left, right, .. } => {
            if n == a && n == b {
            } else if n == a {
                if is_subtree(*left, b) {
                    lemma_subtree_id_in_tree(*left, b);
                } else {
                    lemma_subtree_id_in_tree(*right, b);
                }
            } else if n == b {
                if is_subtree(*left, a) {
                    lemma_subtree_id_in_tree(*left, a);
                } else {
                    lemma_subtree_id_in_tree(*right, a);
                }
            } else {
                if is_subtree(*left, a) && is_subtree(*left, b) {
                    lemma_subtree_same_id(*left, a, b);
                } else if is_subtree(*right, a) && is_subtree(*right, b) {
                    lemma_subtree_same_id(*right, a, b);
                } else if is_subtree(*left, a) && is_subtree(*right, b) {
                    lemma_subtree_id_in_tree(*left, a);
                    lemma_subtree_id_in_tree(*right, b);
                } else {
                    lemma_subtree_id_in_tree(*right, a);
                    lemma_subtree_id_in_tree(*left, b);
                }
            }
        },
        KdNode::Empty => {},
    }
}

/// The ordering bulk construction establishes: at every internal node,
/// each point in the "right" subtree has a coordinate on the node's own
/// axis at most the node's, and each point in the "left" subtree one at
/// least the node's. Points tied with the node on its axis may land on
/// either side, so neither bound is strict.
pub open spec fn build_partition_ok(n: KdNode) -> bool
    decreases n,
{
    match n {
        KdNode::Empty => true,
        KdNode::Node { point, dim, left, right, .. } => {
            &&& forall|q: Point|
                tree_points(*right).count(q) > 0 ==> axis_value(q, dim) <= axis_value(point, dim)
            &&& forall|q: Point|
                tree_points(*left).count(q) > 0 ==> axis_value(q, dim) >= axis_value(point, dim)
            &&& build_partition_ok(*left)
            &&& build_partition_ok(*right)
        },
    }
}

/// The ordering insertion maintains, stated over each node's depth: the
/// routing at a node standing at `depth` compares on the axis of
/// `depth + 1`, so each point in its "right" subtree lies strictly below
/// the node's point on that axis, and each point in its "left" subtree at
/// or above it.
pub open spec fn insert_partition_ok(n: KdNode, depth: nat) -> bool
    decreases n,
{
    match n {
        KdNode::Empty => true,
        KdNode::Node { point, left, right, .. } => {
            &&& forall|q: Point|
                tree_points(*right).count(q) > 0 ==> axis_value(q, axis_of(depth + 1))
                    < axis_value(point, axis_of(depth + 1))
            &&& forall|q: Point|
                tree_points(*left).count(q) > 0 ==> axis_value(q, axis_of(depth + 1))
                    >= axis_value(point, axis_of(depth + 1))
            &&& insert_partition_ok(*left, depth + 1)
            &&& insert_partition_ok(*right, depth + 1)
        },
    }
}

/// Each node's stored axis matches its depth: the axis of `depth` at the
/// top, alternating downward.
pub open spec fn dims_ok(n: KdNode, depth: nat) -> bool
    decreases n,
{
    match n {
        KdNode::Empty => true,
        KdNode::Node { dim, left, right, .. } => {
            dim == axis_of(depth) && dims_ok(*left, depth + 1) && dims_ok(*right, depth + 1)
        },
    }
}

/// Whether the axes match their depths only depends on the depth's parity.
pub proof fn lemma_dims_ok_parity(n: KdNode, d1: nat, d2: nat)
    requires
        d1 % 2 == d2 % 2,
        dims_ok(n, d1),
    ensures
        dims_ok(n, d2),
    decreases n,
{
    match n {
        KdNode::Empty => {},
        KdNode::Node { left, right, .. } => {
            lemma_dims_ok_parity(*left, d1 + 1, d2 + 1);
            lemma_dims_ok_parity(*right, d1 + 1, d2 + 1);
        },
    }
}

/// Law: bulk construction establishes the tree ordering, at every node
/// over that node's own splitting axis.
pub proof fn lemma_build_partition(s: Seq<Point>, depth: nat, next: int)
    requires
        0 <= next,
        next + s.len() <= u64::MAX,
    ensures
        build_partition_ok(build_at(s, depth, next).0),
        dims_ok(build_at(s, depth, next).0, depth + 1),
    decreases s.len(),
{
    broadcast use vstd::seq_lib::group_to_multiset_ensures;
    broadcast use vstd::multiset::group_multiset_axioms;

    let r = build_at(s, depth, next);
    assert(tree_points(KdNode::Empty) =~= Multiset::<Point>::empty());
    assert(build_partition_ok(KdNode::Empty));
    assert(dims_ok(KdNode::Empty, depth + 2));
    if s.len() == 0 {
    } else if s.len() == 1 {
    } else {
        let axis = axis_of(depth + 1);
        lemma_sort_by_axis(s, axis);
        let sorted = sort_by_axis(s, axis);
        let m = median_index_of(s.len() as int);
        let lp = sorted.subrange(m + 1, sorted.len() as int);
        let rp = sorted.subrange(0, m);
        lemma_build_partition(lp, depth + 1, next + 1);
        lemma_build_at_model(lp, depth + 1, next + 1);
        let lres = build_at(lp, depth + 1, next + 1);
        lemma_build_partition(rp, depth + 1, lres.1);
        lemma_build_at_model(rp, depth + 1, lres.1);
        let rres = build_at(rp, depth + 1, lres.1);
        assert forall|q: Point| tree_points(rres.0).count(q) > 0 implies axis_value(q, axis)
            <= axis_value(sorted[m], axis) by {
            assert(rp.contains(q));
            let idx = choose|idx: int| 0 <= idx < rp.len() && rp[idx] == q;
            assert(sorted[idx] == q);
            assert(axis_value(sorted[idx], axis) <= axis_value(sorted[m], axis));
        }
        assert forall|q: Point| tree_points(lres.0).count(q) > 0 implies axis_value(q, axis)
            >= axis_value(sorted[m], axis) by {
            assert(lp.contains(q));
            let idx = choose|idx: int| 0 <= idx < lp.len() && lp[idx] == q;
            assert(sorted[m + 1 + idx] == q);
            assert(axis_value(sorted[m], axis) <= axis_value(sorted[m + 1 + idx], axis));
        }
    }
}

/// Law: insertion preserves the ordering it routes by. Starting from the
/// empty tree, which satisfies the ordering trivially, any sequence of
/// insertions therefore maintains it; at a node standing at `depth` the
/// ordering is over the axis of `depth + 1`, the axis opposite the node's
/// own when the axes match their depths.
pub proof fn lemma_insert_partition(n: KdNode, item: Point, depth: nat, fresh: u64)
    requires
        insert_partition_ok(n, depth),
    ensures
        insert_partition_ok(insert_at(n, item, depth, fresh), depth),
        dims_ok(n, depth) ==> dims_ok(insert_at(n, item, depth, fresh), depth),
    decreases n,
{
    broadcast use vstd::multiset::group_multiset_axioms;

    match n {
        KdNode::Empty => {
            assert(tree_points(KdNode::Empty) =~= Multiset::<Point>::empty());
            assert(insert_partition_ok(KdNode::Empty, depth + 1));
            assert(dims_ok(KdNode::Empty, depth + 1));
        },
        KdNode::Node { id, point, dim, left, right } => {
            let a = axis_of(depth + 1);
            if axis_value(point, a) > axis_value(item, a) {
                lemma_insert_partition(*right, item, depth + 1, fresh);
                lemma_insert_at_model(*right, item, depth + 1, fresh);
            } else {
                lemma_insert_partition(*left, item, depth + 1, fresh);
                lemma_insert_at_model(*left, item, depth + 1, fresh);
            }
        },
    }
}

/// Every node on the drill-down path is an internal node of the tree; the
/// path starts at the root and is empty only for the empty tree.
pub proof fn lemma_drill_path(n: KdNode, origin: Point)
    ensures
        forall|i: int|
            0 <= i < drill_path(n, origin).len() ==> is_subtree(n, #[trigger] drill_path(n, origin)[i])
                && drill_path(n, origin)[i] is Node,
        n is Node ==> drill_path(n, origin).len() > 0 && drill_path(n, origin)[0] == n,
        n is Empty ==> drill_path(n, origin).len() == 0,
    decreases n,
{
    match n {
        KdNode::Empty => {},
        KdNode::Node { point, dim, left, right, .. } => {
            if *left is Empty && *right is Empty {
            } else {
                let child = if crate::point::axis_value(point, dim) < crate::point::axis_value(
                    origin,
                    dim,
                ) {
                    *left
                } else {
                    *right
                };
                lemma_drill_path(child, origin);
                assert forall|i: int| 0 <= i < drill_path(n, origin).len() implies is_subtree(
                    n,
                    #[trigger] drill_path(n, origin)[i],
                ) && drill_path(n, origin)[i] is Node by {
                    if i > 0 {
                        assert(drill_path(n, origin)[i] == drill_path(child, origin)[i - 1]);
                        lemma_subtree_trans(n, child, drill_path(child, origin)[i - 1]);
                    }
                }
            }
        },
    }
}

/// The indices of the tree's nodes that hold the point `p`.
pub open spec fn ids_with_point(n: KdNode, p: Point) -> Set<u64>
    decreases n,
{
    match n {
        KdNode::Empty => Set::empty(),
        KdNode::Node { id, point, left, right, .. } => {
            let below = ids_with_point(*left, p).union(ids_with_point(*right, p));
            if point == p {
                below.insert(id)
            } else {
                below
            }
        },
    }
}

/// There are no more node indices recorded for `p` than the tree holds
/// copies of `p`.
pub proof fn lemma_ids_with_point_count(n: KdNode, p: Point)
    ensures
        ids_with_point(n, p).finite(),
        ids_with_point(n, p).len() <= tree_points(n).count(p),
    decreases n,
{
    broadcast use vstd::multiset::group_multiset_axioms;

    match n {
        KdNode::Empty => {
            assert(tree_points(KdNode::Empty) =~= Multiset::<Point>::empty());
        },
        KdNode::Node { id, point, left, right, .. } => {
            lemma_ids_with_point_count(*left, p);
            lemma_ids_with_point_count(*right, p);
            vstd::set_lib::lemma_len_union(ids_with_point(*left, p), ids_with_point(*right, p));
        },
    }
}

/// A subtree node holding `p` is recorded among the tree's indices for `p`.
pub proof fn lemma_subtree_id_with_point(n: KdNode, m: KdNode, p: Point)
    requires
        is_subtree(n, m),
        m is Node,
        node_point(m) == p,
    ensures
        ids_with_point(n, p).contains(node_id(m)),
    decreases n,
{
    if n == m {
    } else {
        match n {
            KdNode::Node { left, right, .. } => {
                if is_subtree(*left, m) {
                    lemma_subtree_id_with_point(*left, m, p);
                } else {
                    lemma_subtree_id_with_point(*right, m, p);
                }
            },
            KdNode::Empty => {},
        }
    }
}

/// In a tree with pairwise distinct node indices, the nodes of the
/// drill-down path all carry different indices.
pub proof fn lemma_drill_path_distinct(n: KdNode, origin: Point)
    requires
        distinct_ids(n),
    ensures
        forall|i: int, j: int|
            0 <= i < j < drill_path(n, origin).len() ==> node_id(
                #[trigger] drill_path(n, origin)[i],
            ) != node_id(#[trigger] drill_path(n, origin)[j]),
    decreases n,
{
    match n {
        KdNode::Empty => {},
        KdNode::Node { point, dim, left, right, .. } => {
            if *left is Empty && *right is Empty {
            } else {
                let child = if crate::point::axis_value(point, dim) < crate::point::axis_value(
                    origin,
                    dim,
                ) {
                    *left
                } else {
                    *right
                };
                lemma_drill_path_distinct(child, origin);
                lemma_drill_path(child, origin);
                let path = drill_path(n, origin);
                assert forall|i: int, j: int| 0 <= i < j < path.len() implies node_id(
                    #[trigger] path[i],
                ) != node_id(#[trigger] path[j]) by {
                    if i == 0 {
                        assert(path[j] == drill_path(child, origin)[j - 1]);
                        lemma_subtree_id_in_tree(child, path[j]);
                    } else {
                        assert(path[i] == drill_path(child, origin)[i - 1]);
                        assert(path[j] == drill_path(child, origin)[j - 1]);
                    }
                }
            }
        },
    }
}

} // verus!
