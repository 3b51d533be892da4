use vstd::prelude::*;

use crate::dim::Dim;
use crate::point::Point;
use crate::radius::Radius;

verus! {

use core::cmp::Ordering;

use vstd::multiset::Multiset;

use crate::point::dist_sq;
use crate::radius::within_radius;
use crate::{drill_path, is_subtree, node_id, node_point, tree_points, tree_size, KdNode};

/// The nodes a vector of references points at, in order.
pub open spec fn path_of(s: Seq<&KdNode>) -> Seq<KdNode> {
    Seq::new(s.len(), |i: int| *s[i])
}

/// One entry of the result list: a node and its squared distance to the
/// search origin.
pub open spec fn entry_ok(e: (&KdNode, u128), root: KdNode, origin: Point) -> bool {
    &&& is_subtree(root, *e.0)
    &&& *e.0 is Node
    &&& e.1 as int == dist_sq(origin, node_point(*e.0))
}

/// Every entry of the result list is an internal node of the tree, paired
/// with its true squared distance to the origin.
pub open spec fn entries_ok(q: Seq<(&KdNode, u128)>, root: KdNode, origin: Point) -> bool {
    forall|i: int| 0 <= i < q.len() ==> entry_ok(#[trigger] q[i], root, origin)
}

/// Whether a squared distance lies within an optional radius; no radius
/// bounds nothing.
pub open spec fn within_opt(radius: Option<Radius>, d2: int) -> bool {
    match radius {
        Option::None => true,
        Option::Some(r) => within_radius(d2, r),
    }
}

/// Every entry of the result list lies within the search radius.
pub open spec fn entries_within(q: Seq<(&KdNode, u128)>, radius: Option<Radius>) -> bool {
    forall|i: int| 0 <= i < q.len() ==> within_opt(radius, (#[trigger] q[i]).1 as int)
}

/// The result list is sorted by squared distance, ascending.
pub open spec fn queue_sorted(q: Seq<(&KdNode, u128)>) -> bool {
    forall|i: int, j: int| 0 <= i <= j < q.len() ==> (#[trigger] q[i]).1 <= (#[trigger] q[j]).1
}

/// No node appears twice in the result list.
pub open spec fn queue_distinct(q: Seq<(&KdNode, u128)>) -> bool {
    forall|i: int, j: int|
        0 <= i < j < q.len() ==> node_id(*(#[trigger] q[i]).0) != node_id(*(#[trigger] q[j]).0)
}

/// Whether the result list holds a node with the given index.
pub open spec fn queue_has_id(q: Seq<(&KdNode, u128)>, id: u64) -> bool {
    exists|i: int| 0 <= i < q.len() && node_id(*(#[trigger] q[i]).0) == id
}

/// Every entry of `old_q` still occurs in `new_q`: the list only grows.
pub open spec fn queue_keeps(old_q: Seq<(&KdNode, u128)>, new_q: Seq<(&KdNode, u128)>) -> bool {
    forall|i: int| 0 <= i < old_q.len() ==> new_q.contains(#[trigger] old_q[i])
}

/// Every entry of the result list is an internal node.
pub open spec fn queue_all_nodes(q: Seq<(&KdNode, u128)>) -> bool {
    forall|i: int| 0 <= i < q.len() ==> *(#[trigger] q[i]).0 is Node
}

/// Every element of the traversal stack points into the tree.
pub open spec fn stack_ok(s: Seq<&KdNode>, root: KdNode) -> bool {
    forall|i: int| 0 <= i < s.len() ==> is_subtree(root, *(#[trigger] s[i]))
}

/// Every element of the traversal stack is an internal node.
pub open spec fn stack_all_nodes(s: Seq<&KdNode>) -> bool {
    forall|i: int| 0 <= i < s.len() ==> *(#[trigger] s[i]) is Node
}

/// Every element of the traversal stack below the top is an internal node;
/// only the top may transiently be empty.
pub open spec fn stack_nodes_below_top(s: Seq<&KdNode>) -> bool {
    forall|i: int| 0 <= i < s.len() - 1 ==> *(#[trigger] s[i]) is Node
}

/// The combined size of the subtrees on the stack: the measure the
/// backtracking search runs down.
pub open spec fn stack_weight(s: Seq<&KdNode>) -> nat
    decreases s.len(),
{
    if s.len() == 0 {
        0
    } else {
        stack_weight(s.drop_last()) + tree_size(*s.last())
    }
}

/// A list that keeps all entries of another keeps every index it holds.
proof fn lemma_queue_keeps_id(old_q: Seq<(&KdNode, u128)>, new_q: Seq<(&KdNode, u128)>, id: u64)
    requires
        queue_keeps(old_q, new_q),
        queue_has_id(old_q, id),
    ensures
        queue_has_id(new_q, id),
{
    let i = choose|i: int| 0 <= i < old_q.len() && node_id(*(#[trigger] old_q[i]).0) == id;
    assert(new_q.contains(old_q[i]));
    let j = choose|j: int| 0 <= j < new_q.len() && new_q[j] == old_q[i];
    assert(node_id(*new_q[j].0) == id);
}

proof fn lemma_queue_keeps_refl(q: Seq<(&KdNode, u128)>)
    ensures
        queue_keeps(q, q),
{
    assert forall|i: int| 0 <= i < q.len() implies q.contains(#[trigger] q[i]) by {
        assert(q[i] == q[i]);
    }
}

proof fn lemma_queue_keeps_trans(
    a: Seq<(&KdNode, u128)>,
    b: Seq<(&KdNode, u128)>,
    c: Seq<(&KdNode, u128)>,
)
    requires
        queue_keeps(a, b),
        queue_keeps(b, c),
    ensures
        queue_keeps(a, c),
{
    assert forall|i: int| 0 <= i < a.len() implies c.contains(#[trigger] a[i]) by {
        assert(b.contains(a[i]));
        let j = choose|j: int| 0 <= j < b.len() && b[j] == a[i];
        assert(c.contains(b[j]));
    }
}

/// Whether the query disc reaches the side of `parent`'s splitting plane
/// that the "left" (greater half) or "right" (smaller-or-equal half) child
/// occupies: the origin lies on that side, or within the radius of the
/// plane. With no radius bound every side is reachable.
pub open spec fn side_reachable(
    parent: KdNode,
    is_left: bool,
    origin: Point,
    radius: Option<Radius>,
) -> bool {
    match radius {
        Option::None => true,
        Option::Some(r) => {
            let c = crate::point::axis_value(node_point(parent), crate::node_dim(parent));
            let g = crate::point::axis_value(origin, crate::node_dim(parent));
            crate::radius::plane_within(c, g, r) || (if is_left {
                g >= c
            } else {
                g <= c
            })
        },
    }
}

/// Both children of a visited node are collected when they are internal,
/// within the radius, and on a reachable side of the node's plane.
pub open spec fn child_cover(
    q: Seq<(&KdNode, u128)>,
    parent: KdNode,
    origin: Point,
    radius: Option<Radius>,
) -> bool {
    &&& (crate::node_left(parent) is Node && within_opt(
        radius,
        dist_sq(origin, node_point(crate::node_left(parent))),
    ) && side_reachable(parent, true, origin, radius)) ==> queue_has_id(
        q,
        node_id(crate::node_left(parent)),
    )
    &&& (crate::node_right(parent) is Node && within_opt(
        radius,
        dist_sq(origin, node_point(crate::node_right(parent))),
    ) && side_reachable(parent, false, origin, radius)) ==> queue_has_id(
        q,
        node_id(crate::node_right(parent)),
    )
}

/// The reachable, in-range children of a visited node appear among the
/// returned points.
pub open spec fn children_found(
    r: Seq<Point>,
    parent: KdNode,
    origin: Point,
    radius: Option<Radius>,
) -> bool {
    &&& (crate::node_left(parent) is Node && within_opt(
        radius,
        dist_sq(origin, node_point(crate::node_left(parent))),
    ) && side_reachable(parent, true, origin, radius)) ==> r.contains(
        node_point(crate::node_left(parent)),
    )
    &&& (crate::node_right(parent) is Node && within_opt(
        radius,
        dist_sq(origin, node_point(crate::node_right(parent))),
    ) && side_reachable(parent, false, origin, radius)) ==> r.contains(
        node_point(crate::node_right(parent)),
    )
}

/// Lift child coverage from the entry list to the returned points.
proof fn lemma_child_found_lift(
    out: Seq<Point>,
    q: Seq<(&KdNode, u128)>,
    root: KdNode,
    origin: Point,
    radius: Option<Radius>,
    parent: KdNode,
)
    requires
        crate::distinct_ids(root),
        is_subtree(root, parent),
        parent is Node,
        child_cover(q, parent, origin, radius),
        entries_ok(q, root, origin),
        out.len() == q.len(),
        forall|k: int| 0 <= k < q.len() ==> out[k] == node_point(*(#[trigger] q[k]).0),
    ensures
        children_found(out, parent, origin, radius),
{
    let l = crate::node_left(parent);
    if l is Node && within_opt(radius, dist_sq(origin, node_point(l))) && side_reachable(
        parent,
        true,
        origin,
        radius,
    ) {
        crate::laws::lemma_subtree_refl(l);
        assert(is_subtree(parent, l));
        crate::laws::lemma_subtree_trans(root, parent, l);
        let k = choose|k: int| 0 <= k < q.len() && node_id(*(#[trigger] q[k]).0) == node_id(l);
        assert(entry_ok(q[k], root, origin));
        crate::laws::lemma_subtree_same_id(root, *q[k].0, l);
        assert(out[k] == node_point(l));
    }
    let rgt = crate::node_right(parent);
    if rgt is Node && within_opt(radius, dist_sq(origin, node_point(rgt))) && side_reachable(
        parent,
        false,
        origin,
        radius,
    ) {
        crate::laws::lemma_subtree_refl(rgt);
        assert(is_subtree(parent, rgt));
        crate::laws::lemma_subtree_trans(root, parent, rgt);
        let k = choose|k: int| 0 <= k < q.len() && node_id(*(#[trigger] q[k]).0) == node_id(rgt);
        assert(entry_ok(q[k], root, origin));
        crate::laws::lemma_subtree_same_id(root, *q[k].0, rgt);
        assert(out[k] == node_point(rgt));
    }
}

/// Child coverage survives growth of the result list.
proof fn lemma_child_cover_keeps(
    q1: Seq<(&KdNode, u128)>,
    q2: Seq<(&KdNode, u128)>,
    parent: KdNode,
    origin: Point,
    radius: Option<Radius>,
)
    requires
        queue_keeps(q1, q2),
        child_cover(q1, parent, origin, radius),
    ensures
        child_cover(q2, parent, origin, radius),
{
    if queue_has_id(q1, node_id(crate::node_left(parent))) {
        lemma_queue_keeps_id(q1, q2, node_id(crate::node_left(parent)));
    }
    if queue_has_id(q1, node_id(crate::node_right(parent))) {
        lemma_queue_keeps_id(q1, q2, node_id(crate::node_right(parent)));
    }
}

/// The multiset of points the result-list entries hold.
pub open spec fn entry_points(q: Seq<(&KdNode, u128)>) -> Multiset<Point>
    decreases q.len(),
{
    if q.len() == 0 {
        Multiset::empty()
    } else {
        entry_points(q.drop_last()).insert(node_point(*q.last().0))
    }
}

/// A list with pairwise distinct node indices, whose entries holding `p`
/// all draw their index from the finite set `s`, holds `p` at most as
/// often as `s` has indices.
proof fn lemma_entry_count_bound(q: Seq<(&KdNode, u128)>, p: Point, s: Set<u64>)
    requires
        s.finite(),
        queue_distinct(q),
        forall|i: int|
            0 <= i < q.len() && node_point(*(#[trigger] q[i]).0) == p ==> s.contains(
                node_id(*q[i].0),
            ),
    ensures
        entry_points(q).count(p) <= s.len(),
    decreases q.len(),
{
    broadcast use vstd::multiset::group_multiset_axioms;

    if q.len() == 0 {
        assert(entry_points(q).count(p) == 0);
    } else {
        let e = q.last();
        let qd = q.drop_last();
        assert(queue_distinct(qd)) by {
            assert forall|i: int, j: int| 0 <= i < j < qd.len() implies node_id(
                *(#[trigger] qd[i]).0,
            ) != node_id(*(#[trigger] qd[j]).0) by {
                assert(qd[i] == q[i] && qd[j] == q[j]);
            }
        }
        if node_point(*e.0) == p {
            let s2 = s.remove(node_id(*e.0));
            assert forall|i: int|
                0 <= i < qd.len() && node_point(*(#[trigger] qd[i]).0) == p implies s2.contains(
                node_id(*qd[i].0),
            ) by {
                assert(qd[i] == q[i]);
                assert(node_id(*q[i].0) != node_id(*e.0));
            }
            lemma_entry_count_bound(qd, p, s2);
            assert(s.contains(node_id(*e.0)));
            vstd::set::axiom_set_remove_len(s, node_id(*e.0));
        } else {
            assert forall|i: int|
                0 <= i < qd.len() && node_point(*(#[trigger] qd[i]).0) == p implies s.contains(
                node_id(*qd[i].0),
            ) by {
                assert(qd[i] == q[i]);
            }
            lemma_entry_count_bound(qd, p, s);
        }
    }
}

/// A point sequence mapped entrywise off a result list holds the entries'
/// points.
proof fn lemma_entry_points_map(out: Seq<Point>, q: Seq<(&KdNode, u128)>)
    requires
        out.len() == q.len(),
        forall|k: int| 0 <= k < q.len() ==> out[k] == node_point(*(#[trigger] q[k]).0),
    ensures
        out.to_multiset() == entry_points(q),
    decreases q.len(),
{
    broadcast use vstd::seq_lib::group_to_multiset_ensures;
    broadcast use vstd::multiset::group_multiset_axioms;

    if q.len() == 0 {
        assert(out =~= Seq::<Point>::empty());
        assert(out.to_multiset() =~= Multiset::<Point>::empty());
    } else {
        assert(out.drop_last().len() == q.drop_last().len());
        assert forall|k: int| 0 <= k < q.drop_last().len() implies out.drop_last()[k] == node_point(
            *(#[trigger] q.drop_last()[k]).0,
        ) by {
            assert(q.drop_last()[k] == q[k] && out.drop_last()[k] == out[k]);
        }
        lemma_entry_points_map(out.drop_last(), q.drop_last());
        assert(out =~= out.drop_last().push(out.last()));
        assert(out.drop_last().push(out.last()).to_multiset() =~= out.drop_last().to_multiset()
            .insert(out.last()));
        assert(out.to_multiset() =~= entry_points(q));
    }
}

/// An empty result holds no point at all.
proof fn lemma_empty_counts(out: Seq<Point>)
    requires
        out.len() == 0,
    ensures
        forall|p: Point| #[trigger] out.to_multiset().count(p) == 0,
{
    broadcast use vstd::seq_lib::group_to_multiset_ensures;
    broadcast use vstd::multiset::group_multiset_axioms;

    assert(out =~= Seq::<Point>::empty());
    assert(out.to_multiset() =~= Multiset::<Point>::empty());
}

/// The mapped result holds each point at most as often as the tree does:
/// the entries' nodes are distinct, and a point has only so many nodes.
proof fn lemma_result_counts(
    out: Seq<Point>,
    q: Seq<(&KdNode, u128)>,
    root: KdNode,
    origin: Point,
)
    requires
        out.len() == q.len(),
        forall|k: int| 0 <= k < q.len() ==> out[k] == node_point(*(#[trigger] q[k]).0),
        entries_ok(q, root, origin),
        queue_distinct(q),
    ensures
        forall|p: Point| #[trigger] out.to_multiset().count(p) <= tree_points(root).count(p),
{
    lemma_entry_points_map(out, q);
    assert forall|p: Point| #[trigger] out.to_multiset().count(p) <= tree_points(root).count(
        p,
    ) by {
        crate::laws::lemma_ids_with_point_count(root, p);
        assert forall|i: int|
            0 <= i < q.len() && node_point(*(#[trigger] q[i]).0) == p implies crate::laws::ids_with_point(
            root,
            p,
        ).contains(node_id(*q[i].0)) by {
            assert(entry_ok(q[i], root, origin));
            crate::laws::lemma_subtree_id_with_point(root, *q[i].0, p);
        }
        lemma_entry_count_bound(q, p, crate::laws::ids_with_point(root, p));
    }
}

/// A list holding entries for each of a sequence of pairwise distinct
/// indices holds at least that many entries.
proof fn lemma_queue_len_from_ids(q: Seq<(&KdNode, u128)>, ids: Seq<u64>)
    requires
        forall|i: int, j: int| 0 <= i < j < ids.len() ==> ids[i] != ids[j],
        forall|i: int| 0 <= i < ids.len() ==> queue_has_id(q, #[trigger] ids[i]),
    ensures
        q.len() >= ids.len(),
    decreases ids.len(),
{
    if ids.len() > 0 {
        let id_last = ids.last();
        let k = choose|k: int| 0 <= k < q.len() && node_id(*(#[trigger] q[k]).0) == id_last;
        let q2 = q.remove(k);
        assert forall|i: int| 0 <= i < ids.len() - 1 implies queue_has_id(
            q2,
            #[trigger] ids.drop_last()[i],
        ) by {
            assert(ids.drop_last()[i] == ids[i]);
            assert(ids[i] != id_last);
            let w = choose|w: int| 0 <= w < q.len() && node_id(*(#[trigger] q[w]).0) == ids[i];
            if w < k {
                assert(q2[w] == q[w]);
            } else {
                assert(q2[w - 1] == q[w]);
            }
        }
        lemma_queue_len_from_ids(q2, ids.drop_last());
    }
}

/// The bound a count-limited search imposes on the result list.
pub open spec fn bounded_len(q: Seq<(&KdNode, u128)>, max_count: Option<usize>) -> bool {
    match max_count {
        Option::None => true,
        Option::Some(m) => q.len() <= m,
    }
}

/// Whether the result list still has room under the count bound. While it
/// does, the search never cuts a branch short.
pub open spec fn not_capped(q: Seq<(&KdNode, u128)>, max_count: Option<usize>) -> bool {
    match max_count {
        Option::None => true,
        Option::Some(m) => q.len() < m,
    }
}

/// Everything the backtracking search maintains about the result list: the
/// entries are internal tree nodes paired with their true squared distance,
/// all within the radius, sorted ascending, each node at most once, and no
/// more of them than the count bound allows.
pub open spec fn search_inv(
    q: Seq<(&KdNode, u128)>,
    root: KdNode,
    origin: Point,
    radius: Option<Radius>,
    max_count: Option<usize>,
) -> bool {
    &&& entries_ok(q, root, origin)
    &&& entries_within(q, radius)
    &&& queue_sorted(q)
    &&& queue_distinct(q)
    &&& bounded_len(q, max_count)
}

impl KdNode {
    /// Whether this is the empty sentinel.
    pub fn is_empty(&self) -> (r: bool)
        ensures
            r == (*self is Empty),
    {
        match self {
            KdNode::Empty => true,
            KdNode::Node { .. } => false,
        }
    }

    /// Whether the two references point at the same internal node, judged by
    /// the nodes' unique indices; the empty sentinel never counts as the
    /// same.
    fn same_node(a: &KdNode, b: &KdNode) -> (r: bool)
        ensures
            r == (*a is Node && *b is Node && node_id(*a) == node_id(*b)),
    {
        match a {
            KdNode::Node { id: id_a, .. } => match b {
                KdNode::Node { id: id_b, .. } => *id_a == *id_b,
                KdNode::Empty => false,
            },
            KdNode::Empty => false,
        }
    }

    /// Drill down the tree toward `origin` and return the visited nodes,
    /// root first: at each node descend to the child on the origin's side
    /// of the splitting plane, until a node with two empty children.
    pub fn drill_down(&self, origin: Point) -> (parents: Vec<&KdNode>)
        ensures
            path_of(parents@) == drill_path(*self, origin),
    {
        let mut parents: Vec<&KdNode> = Vec::new();
        let mut best_node: &KdNode = self;
        proof {
            assert(path_of(parents@) =~= Seq::<KdNode>::empty());
        }
        loop
            invariant_except_break
                drill_path(*self, origin) =~= path_of(parents@) + drill_path(*best_node, origin),
            ensures
                drill_path(*self, origin) =~= path_of(parents@),
            decreases tree_size(*best_node),
        {
            match best_node {
                KdNode::Empty => {
                    proof {
                        assert(drill_path(*best_node, origin) =~= Seq::<KdNode>::empty());
                        assert(drill_path(*self, origin) =~= path_of(parents@));
                    }
                    break ;
                },
                KdNode::Node { point, dim, left, right, .. } => {
                    let ghost pre = parents@;
                    parents.push(best_node);
                    proof {
                        assert(path_of(parents@) =~= path_of(pre).push(*best_node));
                    }
                    if (&**left).is_empty() && (&**right).is_empty() {
                        proof {
                            assert(drill_path(*best_node, origin) =~= seq![*best_node]);
                            assert(drill_path(*self, origin) =~= path_of(parents@));
                        }
                        break ;
                    }
                    match point.cmp(&origin, dim) {
                        Ordering::Less => {
                            proof {
                                assert(drill_path(*best_node, origin) =~= seq![*best_node]
                                    + drill_path(**left, origin));
                            }
                            best_node = &**left;
                        },
                        _ => {
                            proof {
                                assert(drill_path(*best_node, origin) =~= seq![*best_node]
                                    + drill_path(**right, origin));
                            }
                            best_node = &**right;
                        },
                    }
                },
            }
        }
        parents
    }

    /// Insert an entry into the sorted result list, before any entries at
    /// the same distance, unless a node with the same index is already
    /// present.
    fn insert_sorted<'a>(
        points: &mut Vec<(&'a KdNode, u128)>,
        point: (&'a KdNode, u128),
    )
        requires
            *point.0 is Node,
            queue_all_nodes(old(points)@),
            queue_sorted(old(points)@),
            queue_distinct(old(points)@),
        ensures
            queue_all_nodes(final(points)@),
            queue_sorted(final(points)@),
            queue_distinct(final(points)@),
            queue_keeps(old(points)@, final(points)@),
            queue_has_id(final(points)@, node_id(*point.0)),
            forall|i: int|
                0 <= i < final(points)@.len() ==> old(points)@.contains(#[trigger] final(points)@[i])
                    || final(points)@[i] == point,
            old(points)@.len() <= final(points)@.len() <= old(points)@.len() + 1,
            queue_has_id(old(points)@, node_id(*point.0)) ==> final(points)@ == old(points)@,
            // a new entry goes in at the boundary index: after every entry
            // at a strictly smaller distance, before any at an equal or
            // larger one
            !queue_has_id(old(points)@, node_id(*point.0)) ==> exists|k: int|
                0 <= k <= old(points)@.len() && final(points)@ == old(points)@.insert(k, point)
                    && (forall|j: int| 0 <= j < k ==> (#[trigger] old(points)@[j]).1 < point.1) && (
                forall|j: int|
                    k <= j < old(points)@.len() ==> (#[trigger] old(points)@[j]).1 >= point.1),
    {
        let mut index: usize = 0;
        let mut i: usize = 0;
        while i < points.len()
            invariant
                queue_all_nodes(points@),
                queue_sorted(points@),
                queue_distinct(points@),
                *point.0 is Node,
                0 <= index <= i <= points@.len(),
                forall|j: int| 0 <= j < index ==> (#[trigger] points@[j]).1 < point.1,
                forall|j: int| index <= j < i ==> (#[trigger] points@[j]).1 >= point.1,
                forall|j: int|
                    0 <= j < i ==> node_id(*(#[trigger] points@[j]).0) != node_id(*point.0),
            decreases points@.len() - i,
        {
            let (node, dist) = points[i];
            if dist < point.1 {
                proof {
                    assert forall|j: int| 0 <= j < i + 1 implies (#[trigger] points@[j]).1
                        < point.1 by {
                        assert(points@[j].1 <= points@[i as int].1);
                    }
                }
                index = i + 1;
            }
            if Self::same_node(node, point.0) {
                proof {
                    assert(node_id(*points@[i as int].0) == node_id(*point.0));
                    assert(queue_has_id(points@, node_id(*point.0)));
                }
                return ;
            }
            i += 1;
        }
        proof {
            if queue_has_id(points@, node_id(*point.0)) {
                let j = choose|j: int|
                    0 <= j < points@.len() && node_id(*(#[trigger] points@[j]).0) == node_id(
                        *point.0,
                    );
                assert(false);
            }
        }
        let ghost pre = points@;
        points.insert(index, point);
        proof {
            assert(points@ == pre.insert(index as int, point));
            assert forall|a: int, b: int| 0 <= a <= b < points@.len() implies (
            #[trigger] points@[a]).1 <= (#[trigger] points@[b]).1 by {
                if a < index && b < index {
                } else if a == index || b == index {
                } else {
                }
            }
            assert(queue_has_id(points@, node_id(*point.0))) by {
                assert(node_id(*points@[index as int].0) == node_id(*point.0));
            }
            assert(queue_keeps(pre, points@)) by {
                assert forall|j: int| 0 <= j < pre.len() implies points@.contains(
                    #[trigger] pre[j],
                ) by {
                    if j < index {
                        assert(points@[j] == pre[j]);
                    } else {
                        assert(points@[j + 1] == pre[j]);
                    }
                }
            }
            assert forall|a: int, b: int| 0 <= a < b < points@.len() implies node_id(
                *(#[trigger] points@[a]).0,
            ) != node_id(*(#[trigger] points@[b]).0) by {
                if a < index && b < index {
                    assert(points@[a] == pre[a] && points@[b] == pre[b]);
                } else if a == index {
                    assert(points@[b] == pre[b - 1]);
                } else if b == index {
                    assert(points@[a] == pre[a]);
                } else if a > index {
                    assert(points@[a] == pre[a - 1] && points@[b] == pre[b - 1]);
                } else {
                    assert(points@[a] == pre[a] && points@[b] == pre[b - 1]);
                }
            }
        }
    }

    /// Work back up the tree: pop the deepest remaining node off the
    /// traversal stack, collect it when it lies within the radius, expand
    /// its children where the query range can reach them, then continue
    /// with the next node up, until the stack is exhausted or the result
    /// bound is reached.
    fn _nearest_neighbor<'a>(
        &'a self,
        origin: Point,
        radius: Option<Radius>,
        best_queue: &mut Vec<(&'a KdNode, u128)>,
        parent_queue: &mut Vec<&'a KdNode>,
        max_count: Option<usize>,
    ) -> (temp: Vec<(&'a KdNode, u128)>)
        requires
            crate::distinct_ids(*self),
            radius matches Some(r) ==> r.wf(),
            stack_ok(old(parent_queue)@, *self),
            stack_nodes_below_top(old(parent_queue)@),
            search_inv(old(best_queue)@, *self, origin, radius, max_count),
        ensures
            search_inv(final(best_queue)@, *self, origin, radius, max_count),
            queue_keeps(old(best_queue)@, final(best_queue)@),
            stack_ok(final(parent_queue)@, *self),
            stack_all_nodes(final(parent_queue)@),
            old(parent_queue)@.len() == 0 ==> final(parent_queue)@ == old(parent_queue)@
                && final(best_queue)@ == old(best_queue)@,
            old(parent_queue)@.len() > 0 ==> stack_weight(final(parent_queue)@) + tree_size(
                *old(parent_queue)@.last(),
            ) <= stack_weight(old(parent_queue)@),
            // the popped top enters the list when it is in range and there
            // is room for it
            (old(parent_queue)@.len() > 0 && *old(parent_queue)@.last() is Node && within_opt(
                radius,
                dist_sq(origin, node_point(*old(parent_queue)@.last())),
            ) && (max_count matches Some(m) ==> old(best_queue)@.len() < m)) ==> queue_has_id(
                final(best_queue)@,
                node_id(*old(parent_queue)@.last()),
            ),
            old(best_queue)@.len() <= final(best_queue)@.len(),
            // while the result list has room, no branch is cut short: the
            // stack is drained and every node on it that lies within the
            // radius enters the list
            (not_capped(final(best_queue)@, max_count) && old(parent_queue)@.len() > 0
                && *old(parent_queue)@.last() is Node) ==> final(parent_queue)@.len() == 0 && (
            forall|i: int|
                0 <= i < old(parent_queue)@.len() && *(#[trigger] old(parent_queue)@[i]) is Node
                    && within_opt(radius, dist_sq(origin, node_point(*old(parent_queue)@[i])))
                    ==> queue_has_id(final(best_queue)@, node_id(*old(parent_queue)@[i]))) && (
            forall|i: int|
                0 <= i < old(parent_queue)@.len() && *(#[trigger] old(parent_queue)@[i]) is Node
                    ==> child_cover(final(best_queue)@, *old(parent_queue)@[i], origin, radius)),
            (old(parent_queue)@.len() > 0 && *old(parent_queue)@.last() is Empty)
                ==> final(parent_queue)@ == old(parent_queue)@.drop_last()
                && final(best_queue)@ == old(best_queue)@,
            forall|i: int| 0 <= i < temp@.len() ==> final(best_queue)@.contains(#[trigger] temp@[i]),
        decreases stack_weight(old(parent_queue)@), 1int,
    {
        let ghost s0 = parent_queue@;
        let ghost b0 = best_queue@;
        let parent_opt: Option<&KdNode> = parent_queue.pop();
        match parent_opt {
            Option::None => {
                proof {
                    lemma_queue_keeps_refl(best_queue@);
                }
                return Self::copy_entries(best_queue);
            },
            Option::Some(parent) => {
                proof {
                    assert(parent_queue@ =~= s0.drop_last());
                    assert(stack_weight(s0) == stack_weight(s0.drop_last()) + tree_size(*parent));
                }
                let ghost s1 = parent_queue@;
                proof {
                    assert(is_subtree(*self, *parent)) by {
                        assert(s0[s0.len() - 1] == parent);
                    }
                    assert(stack_all_nodes(s1)) by {
                        assert forall|i: int| 0 <= i < s1.len() implies *(#[trigger] s1[i]) is Node by {
                            assert(s1[i] == s0[i]);
                        }
                    }
                    assert(stack_ok(s1, *self)) by {
                        assert forall|i: int| 0 <= i < s1.len() implies is_subtree(
                            *self,
                            *(#[trigger] s1[i]),
                        ) by {
                            assert(s1[i] == s0[i]);
                        }
                    }
                }
                match parent {
                    KdNode::Empty => {},
                    KdNode::Node { point, dim, left, right, .. } => {
                        match max_count {
                            Option::Some(m) => {
                                if best_queue.len() >= m {
                                    proof {
                                        lemma_queue_keeps_refl(best_queue@);
                                    }
                                    return Vec::new();
                                }
                            },
                            Option::None => {},
                        }
                        // Add the node's point if it is in range.
                        let dis: u128 = crate::point::distance_squared(&origin, point);
                        let in_range: bool = match radius {
                            Option::None => true,
                            Option::Some(r) => crate::radius::le_radius(dis, &r),
                        };
                        if in_range {
                            proof {
                                assert(entry_ok((parent, dis), *self, origin));
                            }
                            Self::insert_sorted(best_queue, (parent, dis));
                        }
                        proof {
                            lemma_queue_keeps_refl(b0);
                        }
                        let ghost b1 = best_queue@;
                        proof {
                            assert(queue_keeps(b0, b1));
                            if within_opt(radius, dis as int) {
                                assert(queue_has_id(b1, node_id(*parent)));
                            }
                            crate::laws::lemma_subtree_refl(**left);
                            crate::laws::lemma_subtree_refl(**right);
                            assert(is_subtree(*parent, **left));
                            assert(is_subtree(*parent, **right));
                            crate::laws::lemma_subtree_trans(*self, *parent, **left);
                            crate::laws::lemma_subtree_trans(*self, *parent, **right);
                        }
                        // The query disc reaches a child's side of this
                        // node's splitting plane when the origin lies on
                        // that side, or within the radius of the plane;
                        // with no radius bound it reaches both sides.
                        let crosses: bool = match radius {
                            Option::None => true,
                            Option::Some(r) => point.in_radius(&origin, dim, &r),
                        };
                        let reach_left: bool = crosses || !point.gt(&origin, dim);
                        let reach_right: bool = crosses || !origin.gt(point, dim);
                        proof {
                            assert(reach_left == side_reachable(*parent, true, origin, radius));
                            assert(reach_right == side_reachable(*parent, false, origin, radius));
                        }
                        let stop1: bool = self.expand_child(
                            origin,
                            radius,
                            best_queue,
                            parent_queue,
                            max_count,
                            &**left,
                            reach_left,
                            Ghost(*parent),
                        );
                        let ghost s2 = parent_queue@;
                        let ghost b2 = best_queue@;
                        if stop1 {
                            proof {
                                lemma_queue_keeps_trans(b0, b1, b2);
                                lemma_queue_keeps_refl(b2);
                            }
                            return Vec::new();
                        }
                        let stop2: bool = self.expand_child(
                            origin,
                            radius,
                            best_queue,
                            parent_queue,
                            max_count,
                            &**right,
                            reach_right,
                            Ghost(*parent),
                        );
                        let ghost s3 = parent_queue@;
                        let ghost b3 = best_queue@;
                        if stop2 {
                            proof {
                                lemma_queue_keeps_trans(b0, b1, b2);
                                lemma_queue_keeps_trans(b0, b2, b3);
                                lemma_queue_keeps_refl(b3);
                            }
                            return Vec::new();
                        }
                        let _ = self._nearest_neighbor(
                            origin,
                            radius,
                            best_queue,
                            parent_queue,
                            max_count,
                        );
                        let ghost s4 = parent_queue@;
                        let ghost b4 = best_queue@;
                        proof {
                            lemma_queue_keeps_trans(b0, b1, b2);
                            lemma_queue_keeps_trans(b0, b2, b3);
                            lemma_queue_keeps_trans(b0, b3, b4);
                            if within_opt(radius, dis as int) && (max_count matches Some(m)
                                ==> b0.len() < m) {
                                lemma_queue_keeps_id(b1, b2, node_id(*parent));
                                lemma_queue_keeps_id(b2, b3, node_id(*parent));
                                lemma_queue_keeps_id(b3, b4, node_id(*parent));
                            }
                            if not_capped(b4, max_count) {
                                assert(not_capped(b3, max_count));
                                assert(not_capped(b2, max_count));
                                // the stack has been drained: by the last
                                // recursive call, or already by a child
                                // expansion
                                assert(s4.len() == 0);
                                assert forall|i: int|
                                    0 <= i < s0.len() && *(#[trigger] s0[i]) is Node && within_opt(
                                        radius,
                                        dist_sq(origin, node_point(*s0[i])),
                                    ) implies queue_has_id(b4, node_id(*s0[i])) by {
                                    if i == s0.len() - 1 {
                                        assert(queue_has_id(b4, node_id(*parent)));
                                    } else {
                                        assert(s1[i] == s0[i]);
                                        if s2 =~= s1 {
                                            if s3 =~= s2 {
                                                assert(queue_has_id(b4, node_id(*s1[i])));
                                            } else {
                                                assert(queue_has_id(b3, node_id(*s2[i])));
                                                lemma_queue_keeps_id(b3, b4, node_id(*s2[i]));
                                            }
                                        } else {
                                            assert(queue_has_id(b2, node_id(*s1[i])));
                                            lemma_queue_keeps_id(b2, b3, node_id(*s1[i]));
                                            lemma_queue_keeps_id(b3, b4, node_id(*s1[i]));
                                        }
                                    }
                                }
                                // children of the popped node were taken
                                // up by its two expansions
                                assert(child_cover(b4, *parent, origin, radius)) by {
                                    if crate::node_left(*parent) is Node && within_opt(
                                        radius,
                                        dist_sq(origin, node_point(crate::node_left(*parent))),
                                    ) && side_reachable(*parent, true, origin, radius) {
                                        assert(queue_has_id(b2, node_id(**left)));
                                        lemma_queue_keeps_id(b2, b3, node_id(**left));
                                        lemma_queue_keeps_id(b3, b4, node_id(**left));
                                    }
                                    if crate::node_right(*parent) is Node && within_opt(
                                        radius,
                                        dist_sq(origin, node_point(crate::node_right(*parent))),
                                    ) && side_reachable(*parent, false, origin, radius) {
                                        assert(queue_has_id(b3, node_id(**right)));
                                        lemma_queue_keeps_id(b3, b4, node_id(**right));
                                    }
                                }
                                assert forall|i: int|
                                    0 <= i < s0.len() && *(#[trigger] s0[i]) is Node implies child_cover(
                                    b4,
                                    *s0[i],
                                    origin,
                                    radius,
                                ) by {
                                    if i == s0.len() - 1 {
                                        assert(child_cover(b4, *parent, origin, radius));
                                    } else {
                                        assert(s1[i] == s0[i]);
                                        if s2 =~= s1 {
                                            if s3 =~= s2 {
                                                assert(child_cover(b4, *s1[i], origin, radius));
                                            } else {
                                                assert(child_cover(b3, *s2[i], origin, radius));
                                                lemma_child_cover_keeps(
                                                    b3,
                                                    b4,
                                                    *s2[i],
                                                    origin,
                                                    radius,
                                                );
                                            }
                                        } else {
                                            assert(child_cover(b2, *s1[i], origin, radius));
                                            lemma_child_cover_keeps(b2, b3, *s1[i], origin, radius);
                                            lemma_child_cover_keeps(b3, b4, *s1[i], origin, radius);
                                        }
                                    }
                                }
                            }
                        }
                    },
                }
                proof {
                    lemma_queue_keeps_refl(b0);
                }
                return Self::copy_entries(best_queue);
            },
        }
    }

    /// Consider one child of a popped node: skip it when it is already in
    /// the result list, or when `reachable` says the query disc cannot
    /// reach its side of the popped node's splitting plane; otherwise push
    /// it and search from it, then merge the returned entries back.
    /// Returns whether the result bound was hit and the caller must
    /// unwind.
    fn expand_child<'a>(
        &'a self,
        origin: Point,
        radius: Option<Radius>,
        best_queue: &mut Vec<(&'a KdNode, u128)>,
        parent_queue: &mut Vec<&'a KdNode>,
        max_count: Option<usize>,
        side_node: &'a KdNode,
        reachable: bool,
        parent: Ghost<KdNode>,
    ) -> (stop: bool)
        requires
            crate::distinct_ids(*self),
            radius matches Some(r) ==> r.wf(),
            is_subtree(*self, *side_node),
            parent@ is Node,
            tree_size(*side_node) < tree_size(parent@),
            stack_ok(old(parent_queue)@, *self),
            stack_all_nodes(old(parent_queue)@),
            search_inv(old(best_queue)@, *self, origin, radius, max_count),
        ensures
            search_inv(final(best_queue)@, *self, origin, radius, max_count),
            queue_keeps(old(best_queue)@, final(best_queue)@),
            stack_ok(final(parent_queue)@, *self),
            stack_all_nodes(final(parent_queue)@),
            stack_weight(final(parent_queue)@) <= stack_weight(old(parent_queue)@),
            old(best_queue)@.len() <= final(best_queue)@.len(),
            stop ==> max_count is Some && !not_capped(final(best_queue)@, max_count),
            // a reachable, internal, in-range child is collected while the
            // list has room
            (not_capped(final(best_queue)@, max_count) && reachable && *side_node is Node
                && within_opt(radius, dist_sq(origin, node_point(*side_node)))) ==> queue_has_id(
                final(best_queue)@,
                node_id(*side_node),
            ),
            not_capped(final(best_queue)@, max_count) ==> (final(parent_queue)@
                == old(parent_queue)@ || (final(parent_queue)@.len() == 0 && (forall|i: int|
                0 <= i < old(parent_queue)@.len() && within_opt(
                    radius,
                    dist_sq(origin, node_point(*(#[trigger] old(parent_queue)@[i]))),
                ) ==> queue_has_id(final(best_queue)@, node_id(*old(parent_queue)@[i]))) && (
            forall|i: int|
                0 <= i < old(parent_queue)@.len() && *(#[trigger] old(parent_queue)@[i]) is Node
                    ==> child_cover(final(best_queue)@, *old(parent_queue)@[i], origin, radius)))),
        decreases stack_weight(old(parent_queue)@) + tree_size(parent@), 0int,
    {
        let ghost s_pre = parent_queue@;
        let ghost b_pre = best_queue@;
        let mut found: bool = false;
        let mut i: usize = 0;
        while i < best_queue.len()
            invariant
                0 <= i <= best_queue@.len(),
                found ==> *side_node is Node && queue_has_id(best_queue@, node_id(*side_node)),
            decreases best_queue@.len() - i,
        {
            let (node, _d) = best_queue[i];
            if Self::same_node(node, side_node) {
                proof {
                    assert(node_id(*best_queue@[i as int].0) == node_id(*side_node));
                }
                found = true;
            }
            i += 1;
        }
        proof {
            lemma_queue_keeps_refl(b_pre);
        }
        if !found {
            // Skip an internal child on an unreachable side of the plane.
            match side_node {
                KdNode::Node { .. } => {
                    if !reachable {
                        return false;
                    }
                },
                KdNode::Empty => {},
            }
            parent_queue.push(side_node);
            proof {
                assert(parent_queue@.drop_last() =~= s_pre);
                assert(stack_weight(parent_queue@) == stack_weight(s_pre) + tree_size(*side_node));
            }
            let temp: Vec<(&KdNode, u128)> = self._nearest_neighbor(
                origin,
                radius,
                best_queue,
                parent_queue,
                max_count,
            );
            let ghost s2 = parent_queue@;
            let ghost b2 = best_queue@;
            proof {
                if *side_node is Empty {
                    assert(s2 =~= s_pre);
                    assert(b2 =~= b_pre);
                }
                assert forall|k: int| 0 <= k < b2.len() implies queue_has_id(
                    best_queue@,
                    node_id(*(#[trigger] b2[k]).0),
                ) by {
                    assert(node_id(*best_queue@[k].0) == node_id(*b2[k].0));
                }
            }
            let mut j: usize = 0;
            while j < temp.len()
                invariant
                    0 <= j <= temp@.len(),
                    crate::distinct_ids(*self),
                    radius matches Some(r) ==> r.wf(),
                    search_inv(best_queue@, *self, origin, radius, max_count),
                    queue_keeps(old(best_queue)@, b2),
                    queue_keeps(b2, best_queue@),
                    forall|k: int| 0 <= k < temp@.len() ==> b2.contains(#[trigger] temp@[k]),
                    search_inv(b2, *self, origin, radius, max_count),
                    parent_queue@ == s2,
                    stack_ok(parent_queue@, *self),
                    stack_all_nodes(parent_queue@),
                    stack_weight(parent_queue@) <= stack_weight(old(parent_queue)@),
                    old(best_queue)@.len() <= b2.len() <= best_queue@.len(),
                    *side_node is Empty ==> best_queue@ == b_pre,
                    forall|k: int|
                        0 <= k < b2.len() ==> queue_has_id(
                            best_queue@,
                            node_id(*(#[trigger] b2[k]).0),
                        ),
                decreases temp@.len() - j,
            {
                let (node, dist) = temp[j];
                let ghost b_cur = best_queue@;
                let in_range: bool = match radius {
                    Option::None => true,
                    Option::Some(r) => crate::radius::le_radius(dist, &r),
                };
                if in_range {
                    match max_count {
                        Option::Some(m) => {
                            if best_queue.len() >= m {
                                proof {
                                    lemma_queue_keeps_trans(old(best_queue)@, b2, best_queue@);
                                }
                                return true;
                            }
                        },
                        Option::None => {},
                    }
                    proof {
                        assert(b2.contains(temp@[j as int]));
                        let k = choose|k: int| 0 <= k < b2.len() && b2[k] == temp@[j as int];
                        assert(entry_ok(b2[k], *self, origin));
                        if *side_node is Empty {
                            // the entry is already present, so nothing
                            // changes
                            assert(queue_has_id(best_queue@, node_id(*temp@[j as int].0)));
                        }
                        assert(queue_has_id(b2, node_id(*temp@[j as int].0)));
                        lemma_queue_keeps_id(b2, b_cur, node_id(*temp@[j as int].0));
                    }
                    Self::insert_sorted(best_queue, (node, dist));
                    proof {
                        lemma_queue_keeps_trans(b2, b_cur, best_queue@);
                        assert forall|k: int| 0 <= k < b2.len() implies queue_has_id(
                            best_queue@,
                            node_id(*(#[trigger] b2[k]).0),
                        ) by {
                            lemma_queue_keeps_id(b_cur, best_queue@, node_id(*b2[k].0));
                        }
                    }
                }
                j += 1;
            }
            proof {
                lemma_queue_keeps_trans(b_pre, b2, best_queue@);
                if not_capped(best_queue@, max_count) {
                    assert(not_capped(b2, max_count));
                    if *side_node is Node && within_opt(
                        radius,
                        dist_sq(origin, node_point(*side_node)),
                    ) {
                        // the nested search began with room and collected
                        // the pushed child
                        assert(queue_has_id(b2, node_id(*side_node)));
                        lemma_queue_keeps_id(b2, best_queue@, node_id(*side_node));
                    }
                    if *side_node is Node {
                        // the nested search drained the stack and covered
                        // everything that was on it, this child included
                        assert(s2.len() == 0);
                        assert forall|i2: int|
                            0 <= i2 < s_pre.len() && within_opt(
                                radius,
                                dist_sq(origin, node_point(*(#[trigger] s_pre[i2]))),
                            ) implies queue_has_id(best_queue@, node_id(*s_pre[i2])) by {
                            let full = s_pre.push(side_node);
                            assert(full[i2] == s_pre[i2]);
                            assert(queue_has_id(b2, node_id(*s_pre[i2])));
                            let k = choose|k: int|
                                0 <= k < b2.len() && node_id(*(#[trigger] b2[k]).0) == node_id(
                                    *s_pre[i2],
                                );
                            assert(queue_has_id(best_queue@, node_id(*b2[k].0)));
                        }
                        assert forall|i2: int|
                            0 <= i2 < s_pre.len() && *(#[trigger] s_pre[i2]) is Node implies child_cover(
                            best_queue@,
                            *s_pre[i2],
                            origin,
                            radius,
                        ) by {
                            let full = s_pre.push(side_node);
                            assert(full[i2] == s_pre[i2]);
                            assert(child_cover(b2, *s_pre[i2], origin, radius));
                            lemma_child_cover_keeps(b2, best_queue@, *s_pre[i2], origin, radius);
                        }
                    } else {
                        assert(parent_queue@ == s_pre);
                        assert(best_queue@ == b_pre);
                    }
                }
            }
        }
        false
    }

    /// Find the neighbors of `origin` within `radius`, nearest first.
    ///
    /// The membership test is inclusive: a collected point at distance
    /// exactly `radius` is kept, and the pruning test reaches a splitting
    /// plane exactly `radius` away. Every returned point is a point of the
    /// tree within the radius, the result is sorted by distance ascending
    /// with no node contributing more than one entry, and every node on
    /// the initial descent path that lies within the radius is returned.
    /// An empty tree gives an empty result.
    pub fn nearest_neighbor(&self, origin: Point, radius: Radius) -> (r: Vec<Point>)
        requires
            crate::well_formed(*self),
            radius.wf(),
        ensures
            forall|i: int| 0 <= i < r@.len() ==> tree_points(*self).count(#[trigger] r@[i]) > 0,
            forall|i: int|
                0 <= i < r@.len() ==> within_radius(dist_sq(origin, #[trigger] r@[i]), radius),
            forall|i: int, j: int|
                0 <= i <= j < r@.len() ==> dist_sq(origin, #[trigger] r@[i]) <= dist_sq(
                    origin,
                    #[trigger] r@[j],
                ),
            *self is Empty ==> r@.len() == 0,
            forall|i: int|
                0 <= i < drill_path(*self, origin).len() && within_radius(
                    dist_sq(origin, node_point(#[trigger] drill_path(*self, origin)[i])),
                    radius,
                ) ==> r@.contains(node_point(drill_path(*self, origin)[i])),
            forall|p: Point| #[trigger] r@.to_multiset().count(p) <= tree_points(*self).count(p),
            forall|i: int|
                0 <= i < drill_path(*self, origin).len() ==> children_found(
                    r@,
                    #[trigger] drill_path(*self, origin)[i],
                    origin,
                    Some(radius),
                ),
    {
        if self.is_empty() {
            let r: Vec<Point> = Vec::new();
            proof {
                crate::laws::lemma_drill_path(*self, origin);
                lemma_empty_counts(r@);
            }
            return r;
        }
        let mut best_queue: Vec<(&KdNode, u128)> = Vec::new();
        let mut parent_queue: Vec<&KdNode> = self.drill_down(origin);
        proof {
            crate::laws::lemma_drill_path(*self, origin);
            assert forall|i: int| 0 <= i < parent_queue@.len() implies is_subtree(
                *self,
                *(#[trigger] parent_queue@[i]),
            ) && *parent_queue@[i] is Node by {
                assert(*parent_queue@[i] == path_of(parent_queue@)[i]);
            }
        }
        let ghost p0 = parent_queue@;
        let _ = self._nearest_neighbor(
            origin,
            Some(radius),
            &mut best_queue,
            &mut parent_queue,
            None,
        );
        let ghost path = drill_path(*self, origin);
        proof {
            assert(path.last() == *p0.last());
            assert forall|i: int|
                0 <= i < path.len() && within_radius(
                    dist_sq(origin, node_point(#[trigger] path[i])),
                    radius,
                ) implies queue_has_id(best_queue@, node_id(path[i])) by {
                assert(*p0[i] == path[i]);
            }
        }
        // Keep only the entries within the radius, which here is all of
        // them, and hand back their points.
        let mut out: Vec<Point> = Vec::new();
        let mut i: usize = 0;
        while i < best_queue.len()
            invariant
                0 <= i <= best_queue@.len(),
                radius.wf(),
                entries_ok(best_queue@, *self, origin),
                entries_within(best_queue@, Some(radius)),
                out@.len() == i,
                forall|k: int|
                    0 <= k < i ==> #[trigger] out@[k] == node_point(*best_queue@[k].0),
            decreases best_queue@.len() - i,
        {
            let (node, dist) = best_queue[i];
            if crate::radius::le_radius(dist, &radius) {
                match node {
                    KdNode::Node { point, .. } => {
                        out.push(*point);
                    },
                    KdNode::Empty => {
                        proof {
                            assert(entry_ok(best_queue@[i as int], *self, origin));
                            assert(false);
                        }
                    },
                }
            } else {
                proof {
                    assert(entry_ok(best_queue@[i as int], *self, origin));
                    assert(false);
                }
            }
            i += 1;
        }
        proof {
            assert forall|k: int| 0 <= k < out@.len() implies tree_points(*self).count(
                #[trigger] out@[k],
            ) > 0 by {
                assert(entry_ok(best_queue@[k], *self, origin));
                crate::laws::lemma_subtree_point_in_tree(*self, *best_queue@[k].0);
            }
            assert forall|i2: int|
                0 <= i2 < path.len() && within_radius(
                    dist_sq(origin, node_point(#[trigger] path[i2])),
                    radius,
                ) implies out@.contains(node_point(path[i2])) by {
                let k = choose|k: int|
                    0 <= k < best_queue@.len() && node_id(*(#[trigger] best_queue@[k]).0)
                        == node_id(path[i2]);
                assert(entry_ok(best_queue@[k], *self, origin));
                crate::laws::lemma_subtree_same_id(*self, *best_queue@[k].0, path[i2]);
                assert(out@[k] == node_point(path[i2]));
            }
            lemma_result_counts(out@, best_queue@, *self, origin);
            assert forall|i2: int| 0 <= i2 < path.len() implies children_found(
                out@,
                #[trigger] path[i2],
                origin,
                Some(radius),
            ) by {
                assert(*p0[i2] == path[i2]);
                assert(child_cover(best_queue@, path[i2], origin, Some(radius)));
                lemma_child_found_lift(
                    out@,
                    best_queue@,
                    *self,
                    origin,
                    Some(radius),
                    path[i2],
                );
            }
        }
        out
    }

    /// Find the neighbors within `radius` of the point with coordinates
    /// `x` and `y`: the same as `nearest_neighbor`, taking the coordinates
    /// apart.
    pub fn nearest_neighbor_x_y(&self, x: i32, y: i32, radius: Radius) -> (r: Vec<Point>)
        requires
            crate::well_formed(*self),
            radius.wf(),
        ensures
            forall|i: int| 0 <= i < r@.len() ==> tree_points(*self).count(#[trigger] r@[i]) > 0,
            forall|i: int|
                0 <= i < r@.len() ==> within_radius(
                    dist_sq(Point { x, y }, #[trigger] r@[i]),
                    radius,
                ),
            forall|i: int, j: int|
                0 <= i <= j < r@.len() ==> dist_sq(Point { x, y }, #[trigger] r@[i]) <= dist_sq(
                    Point { x, y },
                    #[trigger] r@[j],
                ),
            *self is Empty ==> r@.len() == 0,
            forall|i: int|
                0 <= i < drill_path(*self, Point { x, y }).len() && within_radius(
                    dist_sq(
                        Point { x, y },
                        node_point(#[trigger] drill_path(*self, Point { x, y })[i]),
                    ),
                    radius,
                ) ==> r@.contains(node_point(drill_path(*self, Point { x, y })[i])),
            forall|p: Point| #[trigger] r@.to_multiset().count(p) <= tree_points(*self).count(p),
            forall|i: int|
                0 <= i < drill_path(*self, Point { x, y }).len() ==> children_found(
                    r@,
                    #[trigger] drill_path(*self, Point { x, y })[i],
                    Point { x, y },
                    Some(radius),
                ),
    {
        self.nearest_neighbor(Point { x, y }, radius)
    }

    /// Find at most `max` near neighbors of `origin`, nearest first.
    ///
    /// The same descent and backtracking as `nearest_neighbor`, under an
    /// unbounded radius, stopping once `max` points are collected. Every
    /// returned point is a point of the tree, the result is sorted by
    /// distance ascending, and a non-empty tree yields at least one point
    /// when `max` allows it.
    pub fn n_nearest_neighbor(&self, origin: Point, max: usize) -> (r: Vec<Point>)
        requires
            crate::well_formed(*self),
        ensures
            r@.len() <= max,
            forall|i: int| 0 <= i < r@.len() ==> tree_points(*self).count(#[trigger] r@[i]) > 0,
            forall|i: int, j: int|
                0 <= i <= j < r@.len() ==> dist_sq(origin, #[trigger] r@[i]) <= dist_sq(
                    origin,
                    #[trigger] r@[j],
                ),
            *self is Empty ==> r@.len() == 0,
            *self is Node && max >= 1 ==> r@.len() >= 1,
            drill_path(*self, origin).len() <= max ==> r@.len() >= drill_path(
                *self,
                origin,
            ).len(),
            drill_path(*self, origin).len() > max ==> r@.len() == max,
            forall|p: Point| #[trigger] r@.to_multiset().count(p) <= tree_points(*self).count(p),
            // when the bound was not hit, the whole descent path and the
            // children along it were collected
            r@.len() < max ==> forall|i: int|
                0 <= i < drill_path(*self, origin).len() ==> r@.contains(
                    node_point(#[trigger] drill_path(*self, origin)[i]),
                ) && children_found(r@, drill_path(*self, origin)[i], origin, None),
    {
        if self.is_empty() {
            let r: Vec<Point> = Vec::new();
            proof {
                crate::laws::lemma_drill_path(*self, origin);
                lemma_empty_counts(r@);
            }
            return r;
        }
        let mut best_queue: Vec<(&KdNode, u128)> = Vec::new();
        let mut parent_queue: Vec<&KdNode> = self.drill_down(origin);
        proof {
            crate::laws::lemma_drill_path(*self, origin);
            assert forall|i: int| 0 <= i < parent_queue@.len() implies is_subtree(
                *self,
                *(#[trigger] parent_queue@[i]),
            ) && *parent_queue@[i] is Node by {
                assert(*parent_queue@[i] == path_of(parent_queue@)[i]);
            }
        }
        let ghost p0 = parent_queue@;
        let _ = self._nearest_neighbor(
            origin,
            None,
            &mut best_queue,
            &mut parent_queue,
            Some(max),
        );
        proof {
            if max >= 1 {
                assert(*p0.last() is Node) by {
                    assert(*p0.last() == path_of(p0).last());
                }
                assert(queue_has_id(best_queue@, node_id(*p0.last())));
            }
            let path = drill_path(*self, origin);
            if best_queue@.len() < max {
                // the search was never cut short, so every node on the
                // descent path was collected; their indices are pairwise
                // distinct, so the list is at least as long as the path
                crate::laws::lemma_drill_path_distinct(*self, origin);
                assert forall|k: int| 0 <= k < path.len() implies queue_has_id(
                    best_queue@,
                    node_id(#[trigger] path[k]),
                ) by {
                    assert(*p0[k] == path[k]);
                }
                let ids = Seq::new(path.len(), |k: int| node_id(path[k]));
                assert forall|k: int| 0 <= k < ids.len() implies queue_has_id(
                    best_queue@,
                    #[trigger] ids[k],
                ) by {
                    assert(ids[k] == node_id(path[k]));
                }
                lemma_queue_len_from_ids(best_queue@, ids);
                assert(best_queue@.len() >= path.len());
            }
        }
        let mut out: Vec<Point> = Vec::new();
        let mut i: usize = 0;
        while i < best_queue.len()
            invariant
                0 <= i <= best_queue@.len(),
                entries_ok(best_queue@, *self, origin),
                out@.len() == i,
                forall|k: int|
                    0 <= k < i ==> #[trigger] out@[k] == node_point(*best_queue@[k].0),
            decreases best_queue@.len() - i,
        {
            let (node, _dist) = best_queue[i];
            match node {
                KdNode::Node { point, .. } => {
                    out.push(*point);
                },
                KdNode::Empty => {
                    proof {
                        assert(entry_ok(best_queue@[i as int], *self, origin));
                        assert(false);
                    }
                },
            }
            i += 1;
        }
        proof {
            assert forall|k: int| 0 <= k < out@.len() implies tree_points(*self).count(
                #[trigger] out@[k],
            ) > 0 by {
                assert(entry_ok(best_queue@[k], *self, origin));
                crate::laws::lemma_subtree_point_in_tree(*self, *best_queue@[k].0);
            }
            lemma_result_counts(out@, best_queue@, *self, origin);
            let path = drill_path(*self, origin);
            if best_queue@.len() < max {
                assert forall|i2: int| 0 <= i2 < path.len() implies out@.contains(
                    node_point(#[trigger] path[i2]),
                ) && children_found(out@, path[i2], origin, None) by {
                    assert(*p0[i2] == path[i2]);
                    assert(queue_has_id(best_queue@, node_id(path[i2])));
                    let k = choose|k: int|
                        0 <= k < best_queue@.len() && node_id(*(#[trigger] best_queue@[k]).0)
                            == node_id(path[i2]);
                    assert(entry_ok(best_queue@[k], *self, origin));
                    crate::laws::lemma_subtree_same_id(*self, *best_queue@[k].0, path[i2]);
                    assert(out@[k] == node_point(path[i2]));
                    assert(child_cover(best_queue@, path[i2], origin, None));
                    lemma_child_found_lift(out@, best_queue@, *self, origin, None, path[i2]);
                }
            }
        }
        out
    }

    /// Copy the result list, as handing it back to a caller requires.
    fn copy_entries<'a>(q: &Vec<(&'a KdNode, u128)>) -> (r: Vec<(&'a KdNode, u128)>)
        ensures
            r@ == q@,
    {
        let mut r: Vec<(&'a KdNode, u128)> = Vec::new();
        let mut i: usize = 0;
        while i < q.len()
            invariant
                0 <= i <= q@.len(),
                r@ == q@.subrange(0, i as int),
            decreases q@.len() - i,
        {
            r.push(q[i]);
            proof {
                assert(q@.subrange(0, i + 1) =~= q@.subrange(0, i as int).push(q@[i as int]));
            }
            i += 1;
        }
        proof {
            assert(q@.subrange(0, q@.len() as int) =~= q@);
        }
        r
    }
}

} // verus!
