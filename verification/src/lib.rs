//! A two-dimensional k-d tree over integer coordinates.
//!
//! The tree supports balanced bulk construction from a point set (`build`),
//! single-point insertion (`insert`, `insert_point`), and nearest-neighbor
//! search bounded either by an exact rational radius (`nearest_neighbor`) or
//! by a result count (`n_nearest_neighbor`).
//!
//! Every node carries a unique index (`id`), assigned at construction time,
//! which the search uses to tell distinct nodes apart even when they hold
//! equal coordinates.

use vstd::prelude::*;

pub mod dim;
pub mod point;
pub mod radius;

pub use crate::dim::Dim;
pub use crate::point::Point;
pub use crate::radius::Radius;
pub use crate::KdNode::{Empty, Node};

pub mod construct;
pub mod laws;
pub mod search;

verus! {

use vstd::multiset::Multiset;

use crate::dim::axis_of;
use crate::point::axis_value;

/// A binary spatial tree node: either the empty sentinel or an internal node
/// holding one point, the axis it splits on, a unique index, and two owned
/// subtrees.
///
/// Contrary to the textbook convention, the "right" subtree holds the
/// smaller-or-equal half and the "left" subtree the greater half.
#[derive(Debug, PartialEq)]
pub enum KdNode {
    Empty,
    Node {
        id: u64,
        point: Point,
        dim: Dim,
        left: Box<KdNode>,
        right: Box<KdNode>,
    },
}

/// The number of internal nodes of a tree.
pub open spec fn tree_size(n: KdNode) -> nat
    decreases n,
{
    match n {
        KdNode::Empty => 0,
        KdNode::Node { left, right, .. } => 1 + tree_size(*left) + tree_size(*right),
    }
}

/// The multiset of points held by a tree.
pub open spec fn tree_points(n: KdNode) -> Multiset<Point>
    decreases n,
{
    match n {
        KdNode::Empty => Multiset::empty(),
        KdNode::Node { point, left, right, .. } => tree_points(*left).add(
            tree_points(*right),
        ).insert(point),
    }
}

/// The set of node indices occurring in a tree.
pub open spec fn tree_ids(n: KdNode) -> Set<u64>
    decreases n,
{
    match n {
        KdNode::Empty => Set::empty(),
        KdNode::Node { id, left, right, .. } => tree_ids(*left).union(tree_ids(*right)).insert(id),
    }
}

/// No node index occurs twice in the tree.
pub open spec fn distinct_ids(n: KdNode) -> bool
    decreases n,
{
    match n {
        KdNode::Empty => true,
        KdNode::Node { id, left, right, .. } => {
            &&& distinct_ids(*left)
            &&& distinct_ids(*right)
            &&& !tree_ids(*left).contains(id)
            &&& !tree_ids(*right).contains(id)
            &&& tree_ids(*left).disjoint(tree_ids(*right))
        },
    }
}

/// Every node index is below `bound`.
pub open spec fn ids_below(n: KdNode, bound: int) -> bool {
    forall|i: u64| tree_ids(n).contains(i) ==> i < bound
}

/// The point of an internal node.
pub open spec fn node_point(n: KdNode) -> Point
    recommends
        n is Node,
{
    match n {
        KdNode::Node { point, .. } => point,
        KdNode::Empty => Point { x: 0, y: 0 },
    }
}

/// The unique index of an internal node.
pub open spec fn node_id(n: KdNode) -> u64
    recommends
        n is Node,
{
    match n {
        KdNode::Node { id, .. } => id,
        KdNode::Empty => 0,
    }
}

/// The splitting axis of an internal node.
pub open spec fn node_dim(n: KdNode) -> Dim
    recommends
        n is Node,
{
    match n {
        KdNode::Node { dim, .. } => dim,
        KdNode::Empty => Dim::X,
    }
}

/// The "left" subtree of an internal node.
pub open spec fn node_left(n: KdNode) -> KdNode
    recommends
        n is Node,
{
    match n {
        KdNode::Node { left, .. } => *left,
        KdNode::Empty => KdNode::Empty,
    }
}

/// The "right" subtree of an internal node.
pub open spec fn node_right(n: KdNode) -> KdNode
    recommends
        n is Node,
{
    match n {
        KdNode::Node { right, .. } => *right,
        KdNode::Empty => KdNode::Empty,
    }
}

/// A tree is well formed when its node indices are pairwise distinct and all
/// lie below the node count. Fresh indices for insertion can then be taken at
/// the node count.
pub open spec fn well_formed(n: KdNode) -> bool {
    distinct_ids(n) && ids_below(n, tree_size(n) as int)
}

/// Whether `m` occurs as a subtree of `n`, `n` itself included.
pub open spec fn is_subtree(n: KdNode, m: KdNode) -> bool
    decreases n,
{
    n == m || match n {
        KdNode::Node { left, right, .. } => is_subtree(*left, m) || is_subtree(*right, m),
        KdNode::Empty => false,
    }
}

/// The path the search descends first: every node from the root down toward
/// the origin, choosing at each node the child on the origin's side of the
/// splitting plane ("left" when the node's coordinate is strictly below the
/// origin's, "right" otherwise), stopping at a node whose children are both
/// empty.
pub open spec fn drill_path(n: KdNode, origin: Point) -> Seq<KdNode>
    decreases n,
{
    match n {
        KdNode::Empty => Seq::empty(),
        KdNode::Node { point, dim, left, right, .. } => {
            if *left is Empty && *right is Empty {
                seq![n]
            } else if axis_value(point, dim) < axis_value(origin, dim) {
                seq![n] + drill_path(*left, origin)
            } else {
                seq![n] + drill_path(*right, origin)
            }
        },
    }
}

/// The tree that results from inserting `item` into `n` standing at `depth`,
/// giving the new node the index `fresh`.
///
/// An empty position is replaced by a new leaf splitting on `axis_of(depth)`.
/// At an internal node the new point is routed by comparing on the axis of
/// the next depth: "right" when the node's coordinate is strictly greater
/// than the item's, "left" otherwise.
pub open spec fn insert_at(n: KdNode, item: Point, depth: nat, fresh: u64) -> KdNode
    decreases n,
{
    match n {
        KdNode::Empty => KdNode::Node {
            id: fresh,
            point: item,
            dim: axis_of(depth),
            left: Box::new(KdNode::Empty),
            right: Box::new(KdNode::Empty),
        },
        KdNode::Node { id, point, dim, left, right } => {
            if axis_value(point, axis_of(depth + 1)) > axis_value(item, axis_of(depth + 1)) {
                KdNode::Node {
                    id,
                    point,
                    dim,
                    left,
                    right: Box::new(insert_at(*right, item, depth + 1, fresh)),
                }
            } else {
                KdNode::Node {
                    id,
                    point,
                    dim,
                    left: Box::new(insert_at(*left, item, depth + 1, fresh)),
                    right,
                }
            }
        },
    }
}

impl KdNode {
    /// Create a new, empty tree.
    pub fn new() -> (t: Self)
        ensures
            t == KdNode::Empty,
            well_formed(t),
            tree_size(t) == 0,
            tree_points(t) == Multiset::<Point>::empty(),
            crate::laws::insert_partition_ok(t, 0),
            crate::laws::dims_ok(t, 0),
    {
        KdNode::Empty
    }

    /// The number of internal nodes of the tree.
    pub fn node_count(&self) -> (c: u64)
        requires
            tree_size(*self) <= u64::MAX,
        ensures
            c == tree_size(*self),
        decreases *self,
    {
        match self {
            KdNode::Empty => 0,
            KdNode::Node { left, right, .. } => {
                let l = (&**left).node_count();
                let r = (&**right).node_count();
                1 + l + r
            },
        }
    }

    /// Insert a new point given by its coordinates.
    ///
    /// Repeated insertion can unbalance the tree; no rebalancing occurs.
    pub fn insert(&mut self, x: i32, y: i32)
        requires
            well_formed(*old(self)),
            tree_size(*old(self)) < u64::MAX,
        ensures
            *final(self) == insert_at(*old(self), Point { x, y }, 0, tree_size(*old(self)) as u64),
            well_formed(*final(self)),
            tree_points(*final(self)) == tree_points(*old(self)).insert(Point { x, y }),
            tree_size(*final(self)) == tree_size(*old(self)) + 1,
            crate::laws::insert_partition_ok(*old(self), 0) ==> crate::laws::insert_partition_ok(
                *final(self),
                0,
            ),
            crate::laws::insert_partition_ok(*old(self), 0) && crate::laws::dims_ok(*old(self), 0)
                ==> crate::laws::dims_ok(*final(self), 0),
    {
        self.insert_point(Point { x, y })
    }

    /// Insert a new point into the tree.
    ///
    /// This is the same as `insert` but takes a `Point` instead of `x` and `y`.
    /// It preserves the routing order of insertion-built trees: see
    /// `laws::insert_partition_ok`.
    pub fn insert_point(&mut self, item: Point)
        requires
            well_formed(*old(self)),
            tree_size(*old(self)) < u64::MAX,
        ensures
            *final(self) == insert_at(*old(self), item, 0, tree_size(*old(self)) as u64),
            well_formed(*final(self)),
            tree_points(*final(self)) == tree_points(*old(self)).insert(item),
            tree_size(*final(self)) == tree_size(*old(self)) + 1,
            crate::laws::insert_partition_ok(*old(self), 0) ==> crate::laws::insert_partition_ok(
                *final(self),
                0,
            ),
            crate::laws::insert_partition_ok(*old(self), 0) && crate::laws::dims_ok(*old(self), 0)
                ==> crate::laws::dims_ok(*final(self), 0),
    {
        let fresh = self.node_count();
        self._insert(item, 0, fresh);
        proof {
            crate::laws::lemma_insert_at_model(*old(self), item, 0, fresh);
            if crate::laws::insert_partition_ok(*old(self), 0) {
                crate::laws::lemma_insert_partition(*old(self), item, 0, fresh);
            }
        }
    }

    fn _insert(&mut self, item: Point, depth: u64, fresh: u64)
        requires
            depth + tree_size(*old(self)) <= u64::MAX,
        ensures
            *final(self) == insert_at(*old(self), item, depth as nat, fresh),
        decreases *old(self),
    {
        match self {
            KdNode::Empty => {
                *self = KdNode::Node {
                    id: fresh,
                    point: item,
                    dim: Dim::from_depth((depth % 2) as usize),
                    left: Box::new(KdNode::Empty),
                    right: Box::new(KdNode::Empty),
                };
            },
            KdNode::Node { point, left, right, .. } => {
                let next_depth: u64 = depth + 1;
                let d = Dim::from_depth((next_depth % 2) as usize);
                if point.gt(&item, &d) {
                    (&mut **right)._insert(item, next_depth, fresh);
                } else {
                    (&mut **left)._insert(item, next_depth, fresh);
                }
            },
        }
    }
}

} // verus!
