//! Arena-based k-d tree over a user-supplied point type.
//!
//! Nodes live in a flat, index-addressed table; slot 0 is a permanent
//! sentinel meaning "absent child/parent", and slot 1 holds the root once the
//! tree is non-empty.  All linkage (parent, left, right) is by arena index,
//! never by owning pointers, and nodes are allocated consecutively: slots
//! `1 .. last_point` are exactly the occupied ones.

use vstd::prelude::*;

verus! {

use crate::topk::{
    Candidates,
    is_topk,
    sorted_desc,
    entry_ok,
    entry_from,
    lemma_topk_step,
    lemma_topk_unique,
    lemma_map_values_multiset,
    lemma_map_values_push,
};

/// Error taxonomy surfaced by the tree.  All failures are recoverable value
/// returns; no operation panics.
#[derive(Debug, PartialEq, Eq, Structural, Clone, Copy)]
pub enum KdError {
    /// A point's dimensionality differs from the tree's configured one.
    DimensionError,
    /// A query was made against an empty (sub)tree.
    EmptyTree,
    /// An arena index failed to resolve to a node (internal-invariant breach).
    NodeMissing,
    /// A result collection that had to be non-empty was empty.
    BinaryHeapError,
}

impl KdError {
    /// A human-readable description of the error.
    pub fn description(&self) -> (r: String)
        ensures
            r@ == match *self {
                KdError::DimensionError => "KdTree error: dimension error"@,
                KdError::EmptyTree => "KdTree error: no nodes in tree"@,
                KdError::NodeMissing => "KdTree error: Cant access current node"@,
                KdError::BinaryHeapError => "KdTree error: Error accessing binary heap"@,
            },
    {
        proof {
            broadcast use vstd::string::to_string_from_display_ensures_for_str;

        }
        match *self {
            KdError::DimensionError => "KdTree error: dimension error".to_string(),
            KdError::EmptyTree => "KdTree error: no nodes in tree".to_string(),
            KdError::NodeMissing => "KdTree error: Cant access current node".to_string(),
            KdError::BinaryHeapError => "KdTree error: Error accessing binary heap".to_string(),
        }
    }
}

/// Which child slot of its parent a node occupies.
#[derive(Clone, Copy)]
enum NodeType {
    RootNode,
    LeftChild,
    RightChild,
}

/// One arena slot: a payload point plus the integer links and bookkeeping
/// that replace owning pointers.
struct Node<DataType> {
    point: DataType,
    child_type: NodeType,
    parent: usize,
    left_child: usize,
    right_child: usize,
    dimension: usize,
    level: usize,
}

/// A returned neighbor: a point paired with its distance to the query.
#[derive(Debug)]
pub struct Closest<DataType> {
    pub point: DataType,
    pub distance: u128,
}

/// The distances of a sequence of returned neighbors, as integers.
pub open spec fn dists_of<DataType>(v: Seq<Closest<DataType>>) -> Seq<int> {
    v.map_values(|c: Closest<DataType>| c.distance as int)
}

/// Number of `false` entries in the visitation table: the search loop's
/// termination measure.
pub open spec fn num_unvisited(s: Seq<bool>) -> nat
    decreases s.len(),
{
    if s.len() == 0 {
        0
    } else {
        num_unvisited(s.drop_last()) + if s.last() {
            0nat
        } else {
            1nat
        }
    }
}

/// Marking one unvisited entry visited decreases the measure by one.
proof fn lemma_unvisited_update(s: Seq<bool>, i: int)
    requires
        0 <= i < s.len(),
        !s[i],
    ensures
        num_unvisited(s.update(i, true)) + 1 == num_unvisited(s),
    decreases s.len(),
{
    let s2 = s.update(i, true);
    if i == s.len() - 1 {
        assert(s2.drop_last() =~= s.drop_last());
    } else {
        assert(s2.drop_last() =~= s.drop_last().update(i, true));
        lemma_unvisited_update(s.drop_last(), i);
        assert(s2.last() == s.last());
    }
}

/// Two points agree on every coordinate axis (and so are the same point as
/// far as any `Point` observer can tell).
pub open spec fn same_point<DataType: Point>(a: &DataType, b: &DataType) -> bool {
    &&& a.spec_dims() == b.spec_dims()
    &&& forall|j: int| 0 <= j < a.spec_dims() ==> a.spec_axis(j) == b.spec_axis(j)
}

/// The capability any coordinate representation must satisfy.
///
/// `spec_distance` must be a non-negative, symmetric measure, and the
/// distance between the two split planes of a node and a query must
/// lower-bound the distance from the query to any point on the far side of
/// the node's splitting hyperplane: that is the invariant that makes search
/// pruning sound, and it is demanded of every implementation by
/// `lemma_plane_lower_bound`.
pub trait Point: Sized {
    /// Dimensionality of the point.
    spec fn spec_dims(&self) -> nat;

    /// Coordinate of the point along one axis.
    spec fn spec_axis(&self, dim: int) -> int;

    /// Distance between two points of equal dimensionality.
    spec fn spec_distance(&self, other: &Self) -> int;

    /// Dimensionality of the point.
    fn dimensions(&self) -> (r: usize)
        ensures
            r == self.spec_dims(),
    ;

    /// Distance from one point to another; fails exactly when the
    /// dimensionalities differ.
    fn distance(&self, other: &Self) -> (r: Result<u128, KdError>)
        ensures
            match r {
                Ok(d) => self.spec_dims() == other.spec_dims() && d as int == self.spec_distance(
                    other,
                ),
                Err(e) => self.spec_dims() != other.spec_dims() && e == KdError::DimensionError,
            },
    ;

    /// Strict ordering along one axis; ties go to the right side,
    /// consistently, at both insert and query time.
    fn greater(&self, other: &Self, cur_dimension: usize) -> (r: bool)
        requires
            cur_dimension < self.spec_dims(),
            other.spec_dims() == self.spec_dims(),
        ensures
            r == (self.spec_axis(cur_dimension as int) > other.spec_axis(cur_dimension as int)),
    ;

    /// A point equal to zero everywhere except the given axis, used to
    /// compute the distance from a query to a splitting hyperplane.
    fn split_plane(&self, cur_dimension: usize) -> (r: Self)
        requires
            cur_dimension < self.spec_dims(),
        ensures
            r.spec_dims() == self.spec_dims(),
            forall|j: int|
                0 <= j < self.spec_dims() ==> r.spec_axis(j) == (if j == cur_dimension {
                    self.spec_axis(j)
                } else {
                    0
                }),
    ;

    /// An owned copy of the point, agreeing with it on every axis.
    fn clone_point(&self) -> (r: Self)
        ensures
            r.spec_dims() == self.spec_dims(),
            forall|j: int| 0 <= j < self.spec_dims() ==> r.spec_axis(j) == self.spec_axis(j),
    ;

    /// The pruning soundness law: the distance between the split planes of
    /// `node` and `query` along `dim` lower-bounds the distance from `query`
    /// to any point `x` on the opposite side of `node`'s hyperplane.
    proof fn lemma_plane_lower_bound(
        query: &Self,
        node: &Self,
        x: &Self,
        plane_node: &Self,
        plane_query: &Self,
        dim: int,
    )
        requires
            query.spec_dims() == node.spec_dims(),
            x.spec_dims() == node.spec_dims(),
            plane_node.spec_dims() == node.spec_dims(),
            plane_query.spec_dims() == node.spec_dims(),
            0 <= dim < node.spec_dims(),
            forall|j: int|
                0 <= j < node.spec_dims() ==> plane_node.spec_axis(j) == (if j == dim {
                    node.spec_axis(j)
                } else {
                    0
                }),
            forall|j: int|
                0 <= j < node.spec_dims() ==> plane_query.spec_axis(j) == (if j == dim {
                    query.spec_axis(j)
                } else {
                    0
                }),
            (node.spec_axis(dim) > query.spec_axis(dim)) != (node.spec_axis(dim) > x.spec_axis(
                dim,
            )),
        ensures
            plane_node.spec_distance(plane_query) <= x.spec_distance(query),
    ;
}

/// The tree: a growable arena of optional nodes, the configured
/// dimensionality, the maximum level seen so far, and the next free slot.
pub struct KdTree<DataType> {
    tree: Vec<Option<Node<DataType>>>,
    num_dimensions: usize,
    max_levels: usize,
    last_point: usize,
}

impl<DataType: Point> KdTree<DataType> {
    /// Number of points stored.
    pub closed spec fn size(&self) -> nat {
        (self.last_point - 1) as nat
    }

    /// Configured dimensionality.
    pub closed spec fn dims(&self) -> nat {
        self.num_dimensions as nat
    }

    /// The stored points, in insertion order.
    pub closed spec fn points(&self) -> Seq<DataType> {
        Seq::new(self.size(), |i: int| self.tree@[i + 1].unwrap().point)
    }

    /// The number of stored points is the length of the point sequence.
    pub proof fn lemma_size_points(&self)
        ensures
            self.size() == self.points().len(),
    {
    }

    /// Distances from each stored point to `query`, in insertion order.
    pub open spec fn all_dists(&self, query: DataType) -> Seq<int> {
        self.points().map_values(|p: DataType| p.spec_distance(&query))
    }

    /// Node stored at an arena slot.
    spec fn node(&self, i: int) -> Node<DataType> {
        self.tree@[i].unwrap()
    }

    /// `u` is reachable from `r` by child links within `fuel` steps.
    spec fn in_sub(&self, r: int, u: int, fuel: nat) -> bool
        decreases fuel,
    {
        &&& fuel > 0
        &&& 1 <= r < self.last_point
        &&& (u == r || (self.node(r).left_child != 0 && self.in_sub(
            self.node(r).left_child as int,
            u,
            (fuel - 1) as nat,
        )) || (self.node(r).right_child != 0 && self.in_sub(
            self.node(r).right_child as int,
            u,
            (fuel - 1) as nat,
        )))
    }

    /// `u` lies in the subtree rooted at `r`.
    spec fn in_subtree(&self, r: int, u: int) -> bool {
        self.in_sub(r, u, self.last_point as nat)
    }

    /// The descent comparisons along the path to `idx` all point toward
    /// `idx`: whenever `idx` lies in a node's left subtree the node is
    /// strictly greater than `q` along its split dimension, and whenever it
    /// lies in a right subtree it is not.
    spec fn path_cmp(&self, a: int, idx: int, q: DataType) -> bool {
        let n = self.node(a);
        &&& (n.left_child != 0 && self.in_subtree(n.left_child as int, idx)
            ==> n.point.spec_axis(n.dimension as int) > q.spec_axis(n.dimension as int))
        &&& (n.right_child != 0 && self.in_subtree(n.right_child as int, idx) ==> !(
        n.point.spec_axis(n.dimension as int) > q.spec_axis(n.dimension as int)))
    }

    /// `idx` is exactly where descending comparisons for `q` lead from
    /// `root`: every node whose subtree contains `idx` compares the way the
    /// path went.
    spec fn descent_ok(&self, root: int, idx: int, q: DataType) -> bool {
        forall|a: int|
            1 <= a < self.last_point && self.in_subtree(root, a) ==> #[trigger] self.path_cmp(
                a,
                idx,
                q,
            )
    }

    /// More fuel never loses reachability.
    proof fn lemma_in_sub_mono(&self, r: int, u: int, f1: nat, f2: nat)
        requires
            self.in_sub(r, u, f1),
            f1 <= f2,
        ensures
            self.in_sub(r, u, f2),
        decreases f1,
    {
        if u != r {
            let n = self.node(r);
            if n.left_child != 0 && self.in_sub(n.left_child as int, u, (f1 - 1) as nat) {
                self.lemma_in_sub_mono(n.left_child as int, u, (f1 - 1) as nat, (f2 - 1) as nat);
            } else {
                self.lemma_in_sub_mono(n.right_child as int, u, (f1 - 1) as nat, (f2 - 1) as nat);
            }
        }
    }

    /// A subtree member is an occupied slot no higher than its root, and is
    /// reached within the levels that remain below the root.
    proof fn lemma_in_sub_bounds(&self, r: int, u: int, f: nat)
        requires
            self.wf(),
            self.in_sub(r, u, f),
        ensures
            1 <= u < self.last_point,
            self.node(u).level >= self.node(r).level,
            self.in_sub(r, u, (self.last_point - self.node(r).level) as nat),
        decreases f,
    {
        assert(self.wf_node(r));
        let n = self.node(r);
        if u == r {
        } else if n.left_child != 0 && self.in_sub(n.left_child as int, u, (f - 1) as nat) {
            self.lemma_in_sub_bounds(n.left_child as int, u, (f - 1) as nat);
        } else {
            self.lemma_in_sub_bounds(n.right_child as int, u, (f - 1) as nat);
        }
    }

    /// Reachability from a child extends to its parent.
    proof fn lemma_in_sub_step(&self, r: int, c: int, u: int)
        requires
            self.wf(),
            1 <= r < self.last_point,
            c != 0,
            c == self.node(r).left_child || c == self.node(r).right_child,
            self.in_subtree(c as int, u),
        ensures
            self.in_subtree(r, u),
    {
        assert(self.wf_node(r));
        self.lemma_in_sub_bounds(c, u, self.last_point as nat);
        assert(self.in_sub(c, u, (self.last_point - self.node(c).level) as nat));
        assert(self.in_sub(r, u, (self.last_point - self.node(r).level) as nat));
        self.lemma_in_sub_mono(
            r,
            u,
            (self.last_point - self.node(r).level) as nat,
            self.last_point as nat,
        );
    }

    /// Reachability is transitive.
    proof fn lemma_in_sub_trans(&self, a: int, b: int, c: int, f: nat)
        requires
            self.wf(),
            self.in_sub(a, b, f),
            self.in_subtree(b, c),
        ensures
            self.in_subtree(a, c),
        decreases f,
    {
        if a != b {
            let n = self.node(a);
            if n.left_child != 0 && self.in_sub(n.left_child as int, b, (f - 1) as nat) {
                self.lemma_in_sub_trans(n.left_child as int, b, c, (f - 1) as nat);
                self.lemma_in_sub_step(a, n.left_child as int, c);
            } else {
                self.lemma_in_sub_trans(n.right_child as int, b, c, (f - 1) as nat);
                self.lemma_in_sub_step(a, n.right_child as int, c);
            }
        }
    }

    /// A strict subtree member's parent is in the subtree too.
    proof fn lemma_in_sub_parent(&self, r: int, u: int, f: nat)
        requires
            self.wf(),
            self.in_sub(r, u, f),
            u != r,
        ensures
            self.in_subtree(r, self.node(u).parent as int),
        decreases f,
    {
        assert(self.wf_node(r));
        let n = self.node(r);
        if n.left_child != 0 && self.in_sub(n.left_child as int, u, (f - 1) as nat) {
            if u == n.left_child {
                assert(self.in_sub(r, r, self.last_point as nat));
            } else {
                self.lemma_in_sub_parent(n.left_child as int, u, (f - 1) as nat);
                self.lemma_in_sub_step(r, n.left_child as int, self.node(u).parent as int);
            }
        } else {
            if u == n.right_child {
                assert(self.in_sub(r, r, self.last_point as nat));
            } else {
                self.lemma_in_sub_parent(n.right_child as int, u, (f - 1) as nat);
                self.lemma_in_sub_step(r, n.right_child as int, self.node(u).parent as int);
            }
        }
    }

    /// The k-d ordering of one pair of slots: if `u` lies in `i`'s left
    /// subtree then `i` is strictly greater than `u` along `i`'s split
    /// dimension, and if `u` lies in `i`'s right subtree it is not.
    spec fn axis_ok(&self, i: int, u: int) -> bool {
        let n = self.node(i);
        &&& (n.left_child != 0 && self.in_subtree(n.left_child as int, u)
            ==> n.point.spec_axis(n.dimension as int) > self.node(u).point.spec_axis(
            n.dimension as int,
        ))
        &&& (n.right_child != 0 && self.in_subtree(n.right_child as int, u) ==> !(
        n.point.spec_axis(n.dimension as int) > self.node(u).point.spec_axis(n.dimension as int)))
    }

    /// Every occupied slot is in the root's subtree.
    proof fn lemma_root_reaches(&self, u: int)
        requires
            self.wf(),
            1 <= u < self.last_point,
        ensures
            self.in_subtree(1, u),
        decreases u,
    {
        if u == 1 {
            assert(self.in_sub(1, 1, self.last_point as nat));
        } else {
            assert(self.wf_node(u));
            let p = self.node(u).parent as int;
            self.lemma_root_reaches(p);
            assert(self.in_sub(u, u, (self.last_point - 1) as nat));
            assert(self.in_sub(p, u, self.last_point as nat));
            self.lemma_in_sub_trans(1, p, u, self.last_point as nat);
        }
    }

    /// `post` is `pre` with one fresh leaf in slot `lp`, attached as the
    /// previously absent `left_attach` child of slot `p`; nothing else
    /// changed.
    spec fn leaf_extended(pre: Self, post: Self, p: int, lp: int, left_attach: bool) -> bool {
        &&& pre.wf()
        &&& lp == pre.last_point
        &&& post.last_point == lp + 1
        &&& 1 <= p < lp
        &&& (forall|j: int| 0 <= j < lp && j != p ==> post.tree@[j] == #[trigger] pre.tree@[j])
        &&& post.tree@[p] is Some
        &&& post.node(p).point == pre.node(p).point
        &&& post.node(p).dimension == pre.node(p).dimension
        &&& post.node(p).level == pre.node(p).level
        &&& (if left_attach {
            &&& pre.node(p).left_child == 0
            &&& post.node(p).left_child == lp
            &&& post.node(p).right_child == pre.node(p).right_child
        } else {
            &&& pre.node(p).right_child == 0
            &&& post.node(p).right_child == lp
            &&& post.node(p).left_child == pre.node(p).left_child
        })
        &&& post.tree@[lp as int] is Some
        &&& post.node(lp as int).left_child == 0
        &&& post.node(lp as int).right_child == 0
    }

    /// The fresh leaf's subtree is itself alone.
    proof fn lemma_ext_leaf_only(pre: Self, post: Self, p: int, lp: int, la: bool, u: int, f: nat)
        requires
            Self::leaf_extended(pre, post, p, lp, la),
            post.in_sub(lp, u, f),
        ensures
            u == lp,
        decreases f,
    {
    }

    /// Reachability between old slots is unchanged by the extension: the
    /// only new edge leads to the fresh leaf, which leads nowhere.
    proof fn lemma_ext_old(pre: Self, post: Self, p: int, lp: int, la: bool, r: int, u: int, f: nat)
        requires
            Self::leaf_extended(pre, post, p, lp, la),
            u != lp,
            r != lp,
        ensures
            post.in_sub(r, u, f) == pre.in_sub(r, u, f),
        decreases f,
    {
        if f > 0 && 1 <= r < lp && u != r {
            assert(pre.wf_node(r));
            let pn = pre.node(r);
            let qn = post.node(r);
            if r != p {
                assert(qn == pn);
            }
            if qn.left_child != 0 && qn.left_child != lp {
                Self::lemma_ext_old(pre, post, p, lp, la, qn.left_child as int, u, (f - 1) as nat);
            }
            if qn.right_child != 0 && qn.right_child != lp {
                Self::lemma_ext_old(pre, post, p, lp, la, qn.right_child as int, u, (f - 1) as nat);
            }
            if pn.left_child != 0 {
                assert(qn.left_child == pn.left_child);
                Self::lemma_ext_old(pre, post, p, lp, la, pn.left_child as int, u, (f - 1) as nat);
            }
            if pn.right_child != 0 {
                assert(qn.right_child == pn.right_child);
                Self::lemma_ext_old(pre, post, p, lp, la, pn.right_child as int, u, (f - 1) as nat);
            }
            if qn.left_child == lp && post.in_sub(lp, u, (f - 1) as nat) {
                Self::lemma_ext_leaf_only(pre, post, p, lp, la, u, (f - 1) as nat);
            }
            if qn.right_child == lp && post.in_sub(lp, u, (f - 1) as nat) {
                Self::lemma_ext_leaf_only(pre, post, p, lp, la, u, (f - 1) as nat);
            }
        }
    }

    /// An old slot reaches the fresh leaf only through the attachment node.
    proof fn lemma_ext_to_leaf(pre: Self, post: Self, p: int, lp: int, la: bool, r: int, f: nat)
        requires
            Self::leaf_extended(pre, post, p, lp, la),
            post.in_sub(r, lp, f),
            r != lp,
        ensures
            pre.in_subtree(r, p),
        decreases f,
    {
        assert(1 <= r < lp);
        assert(pre.wf_node(r));
        let qn = post.node(r);
        let pn = pre.node(r);
        if r != p {
            assert(qn == pn);
        }
        if qn.left_child != 0 && post.in_sub(qn.left_child as int, lp, (f - 1) as nat) {
            if qn.left_child == lp {
                assert(r == p);
                assert(pre.in_sub(p, p, pre.last_point as nat));
            } else {
                Self::lemma_ext_to_leaf(pre, post, p, lp, la, qn.left_child as int, (f - 1) as nat);
                assert(pn.left_child == qn.left_child);
                pre.lemma_in_sub_step(r, qn.left_child as int, p);
            }
        } else {
            assert(qn.right_child != 0 && post.in_sub(qn.right_child as int, lp, (f - 1) as nat));
            if qn.right_child == lp {
                assert(r == p);
                assert(pre.in_sub(p, p, pre.last_point as nat));
            } else {
                Self::lemma_ext_to_leaf(pre, post, p, lp, la, qn.right_child as int, (f - 1) as nat);
                assert(pn.right_child == qn.right_child);
                pre.lemma_in_sub_step(r, qn.right_child as int, p);
            }
        }
    }

    /// The comparison at `x` is strictly greater than the query along `x`'s
    /// split dimension (so a descent for `q` goes left there).
    spec fn cmp_gt(&self, x: int, q: DataType) -> bool {
        self.node(x).point.spec_axis(self.node(x).dimension as int) > q.spec_axis(
            self.node(x).dimension as int,
        )
    }

    /// The child slot a descent for `q` chooses at `x`.
    spec fn cmp_child(&self, x: int, q: DataType) -> int {
        if self.cmp_gt(x, q) {
            self.node(x).left_child as int
        } else {
            self.node(x).right_child as int
        }
    }

    /// The distance from the point stored in slot `u` to the query.
    spec fn slot_dist(&self, u: int, q: DataType) -> int {
        self.node(u).point.spec_distance(&q)
    }

    /// The ancestors of a node are totally ordered by the subtree relation.
    proof fn lemma_anc_total(&self, a: int, b: int, u: int)
        requires
            self.wf(),
            self.in_subtree(a, u),
            self.in_subtree(b, u),
        ensures
            self.in_subtree(a, b) || self.in_subtree(b, a),
        decreases u,
    {
        self.lemma_in_sub_bounds(a, u, self.last_point as nat);
        if u == a || u == b {
        } else {
            assert(self.wf_node(u));
            if u == 1 {
                self.lemma_in_sub_bounds(a, 1, self.last_point as nat);
                assert(self.wf_node(a));
                assert(a == 1);
            } else {
                let pu = self.node(u).parent as int;
                self.lemma_in_sub_parent(a, u, self.last_point as nat);
                self.lemma_in_sub_parent(b, u, self.last_point as nat);
                self.lemma_anc_total(a, b, pu);
            }
        }
    }

    /// A strict subtree member is below exactly one child of the root.
    proof fn lemma_strict_child(&self, r: int, u: int)
        requires
            self.wf(),
            self.in_subtree(r, u),
            u != r,
        ensures
            exists|c: int|
                (c == self.node(r).left_child || c == self.node(r).right_child) && c != 0
                    && #[trigger] self.in_subtree(c, u),
    {
        let n = self.node(r);
        if n.left_child != 0 && self.in_sub(
            n.left_child as int,
            u,
            (self.last_point - 1) as nat,
        ) {
            self.lemma_in_sub_mono(
                n.left_child as int,
                u,
                (self.last_point - 1) as nat,
                self.last_point as nat,
            );
            assert(self.in_subtree(n.left_child as int, u));
        } else {
            self.lemma_in_sub_mono(
                n.right_child as int,
                u,
                (self.last_point - 1) as nat,
                self.last_point as nat,
            );
            assert(self.in_subtree(n.right_child as int, u));
        }
    }

    /// Distinct children of one node have disjoint subtrees.
    proof fn lemma_child_unique(&self, r: int, c1: int, c2: int, u: int)
        requires
            self.wf(),
            1 <= r < self.last_point,
            c1 != 0 && (c1 == self.node(r).left_child || c1 == self.node(r).right_child),
            c2 != 0 && (c2 == self.node(r).left_child || c2 == self.node(r).right_child),
            self.in_subtree(c1, u),
            self.in_subtree(c2, u),
        ensures
            c1 == c2,
    {
        assert(self.wf_node(r));
        self.lemma_anc_total(c1, c2, u);
        if c1 != c2 {
            // both children sit one level below `r`, so neither can lie
            // strictly inside the other's subtree
            if self.in_subtree(c1, c2) {
                self.lemma_strict_child(c1, c2);
                let c = choose|c: int|
                    (c == self.node(c1).left_child || c == self.node(c1).right_child) && c != 0
                        && #[trigger] self.in_subtree(c, c2);
                assert(self.wf_node(c1));
                self.lemma_in_sub_bounds(c, c2, self.last_point as nat);
                assert(false);
            } else {
                self.lemma_strict_child(c2, c1);
                let c = choose|c: int|
                    (c == self.node(c2).left_child || c == self.node(c2).right_child) && c != 0
                        && #[trigger] self.in_subtree(c, c1);
                assert(self.wf_node(c2));
                self.lemma_in_sub_bounds(c, c1, self.last_point as nat);
                assert(false);
            }
        }
    }

    /// Inside the subtree of `s`, which contains both `u` and a target `t`,
    /// there is a node on the path to `t` from whose off-path side `u`
    /// hangs (or `t` itself, if `u` is below `t`).
    proof fn lemma_lca_witness(&self, s: int, u: int, t: int)
        requires
            self.wf(),
            self.in_subtree(s, u),
            self.in_subtree(s, t),
        ensures
            exists|b: int|
                {
                    &&& #[trigger] self.in_subtree(s, b)
                    &&& self.in_subtree(b, u)
                    &&& self.in_subtree(b, t)
                    &&& (b == t || (forall|c: int|
                        (c == self.node(b).left_child || c == self.node(b).right_child) && c != 0
                            && #[trigger] self.in_subtree(c, t) ==> !self.in_subtree(c, u)))
                },
        decreases self.last_point - self.node(s).level,
    {
        assert(self.wf_node(s));
        assert(self.in_sub(s, s, self.last_point as nat));
        if s == t {
            assert(self.in_subtree(s, s));
        } else {
            self.lemma_strict_child(s, t);
            let ct = choose|c: int|
                (c == self.node(s).left_child || c == self.node(s).right_child) && c != 0
                    && #[trigger] self.in_subtree(c, t);
            if self.in_subtree(ct, u) {
                self.lemma_in_sub_bounds(ct, u, self.last_point as nat);
                self.lemma_lca_witness(ct, u, t);
                let b = choose|b: int|
                    {
                        &&& #[trigger] self.in_subtree(ct, b)
                        &&& self.in_subtree(b, u)
                        &&& self.in_subtree(b, t)
                        &&& (b == t || (forall|c: int|
                            (c == self.node(b).left_child || c == self.node(b).right_child) && c
                                != 0 && #[trigger] self.in_subtree(c, t) ==> !self.in_subtree(
                                c,
                                u,
                            )))
                    };
                self.lemma_in_sub_step(s, ct, b);
                assert(self.in_subtree(s, b));
            } else {
                // `s` itself is the witness: the path child toward `t` does
                // not contain `u`, and any child containing `t` is that one
                assert forall|c: int|
                    (c == self.node(s).left_child || c == self.node(s).right_child) && c != 0
                        && #[trigger] self.in_subtree(c, t) implies !self.in_subtree(c, u) by {
                    self.lemma_child_unique(s, c, ct, t);
                }
                assert(self.in_subtree(s, s));
            }
        }
    }

    /// If every slot in `a_list` whose distance is `x` also occurs in
    /// `b_list`, then `x` is counted in `b_list`'s distances at least as
    /// often as in `a_list`'s (both lists duplicate-free).
    proof fn lemma_dists_count(
        &self,
        a_list: Seq<int>,
        b_list: Seq<int>,
        x: int,
        q: DataType,
    )
        requires
            a_list.no_duplicates(),
            b_list.no_duplicates(),
            forall|i: int|
                0 <= i < a_list.len() && self.slot_dist(#[trigger] a_list[i], q) == x
                    ==> b_list.contains(a_list[i]),
        ensures
            self.dists_at(a_list, q).to_multiset().count(x) <= self.dists_at(
                b_list,
                q,
            ).to_multiset().count(x),
        decreases a_list.len(),
    {
        broadcast use vstd::seq_lib::group_to_multiset_ensures;

        if a_list.len() == 0 {
            assert(self.dists_at(a_list, q) =~= Seq::<int>::empty());
            vstd::seq_lib::to_multiset_len(self.dists_at(a_list, q));
            vstd::multiset::lemma_multiset_empty_len(self.dists_at(a_list, q).to_multiset());
            assert(self.dists_at(a_list, q).to_multiset() =~= vstd::multiset::Multiset::<
                int,
            >::empty());
        } else {
            let a = a_list.last();
            let rest = a_list.drop_last();
            assert(rest.no_duplicates()) by {
                assert forall|i: int, j: int|
                    0 <= i < rest.len() && 0 <= j < rest.len() && i != j implies rest[i]
                    != rest[j] by {
                    assert(rest[i] == a_list[i] && rest[j] == a_list[j]);
                }
            }
            assert(self.dists_at(a_list, q) =~= self.dists_at(rest, q).push(self.slot_dist(a, q)));
            if self.slot_dist(a, q) != x {
                assert forall|i: int|
                    0 <= i < rest.len() && self.slot_dist(#[trigger] rest[i], q)
                        == x implies b_list.contains(rest[i]) by {
                    assert(rest[i] == a_list[i]);
                }
                self.lemma_dists_count(rest, b_list, x, q);
            } else {
                assert(self.slot_dist(a_list[a_list.len() - 1], q) == x);
                assert(b_list.contains(a));
                let j = choose|j: int| 0 <= j < b_list.len() && b_list[j] == a;
                let b2 = b_list.remove(j);
                assert(b2.no_duplicates()) by {
                    assert forall|i2: int, j2: int|
                        0 <= i2 < b2.len() && 0 <= j2 < b2.len() && i2 != j2 implies b2[i2]
                        != b2[j2] by {
                        let i3 = if i2 < j {
                            i2
                        } else {
                            i2 + 1
                        };
                        let j3 = if j2 < j {
                            j2
                        } else {
                            j2 + 1
                        };
                        assert(b2[i2] == b_list[i3] && b2[j2] == b_list[j3]);
                    }
                }
                assert forall|i: int|
                    0 <= i < rest.len() && self.slot_dist(#[trigger] rest[i], q)
                        == x implies b2.contains(rest[i]) by {
                    assert(rest[i] == a_list[i]);
                    assert(rest[i] != a);
                    let ji = choose|ji: int| 0 <= ji < b_list.len() && b_list[ji] == rest[i];
                    if ji < j {
                        assert(b2[ji] == b_list[ji]);
                    } else {
                        assert(b2[ji - 1] == b_list[ji]);
                    }
                }
                self.lemma_dists_count(rest, b2, x, q);
                assert(self.dists_at(b2, q) =~= self.dists_at(b_list, q).remove(j)) by {
                    assert forall|i: int|
                        0 <= i < b2.len() implies self.dists_at(b2, q)[i] == self.dists_at(
                        b_list,
                        q,
                    ).remove(j)[i] by {
                        if i < j {
                            assert(b2[i] == b_list[i]);
                        } else {
                            assert(b2[i] == b_list[i + 1]);
                        }
                    }
                }
                assert(self.dists_at(b_list, q)[j] == x);
                assert(self.dists_at(b_list, q).remove(j).to_multiset() == self.dists_at(
                    b_list,
                    q,
                ).to_multiset().remove(x));
                assert(self.dists_at(b_list, q).to_multiset().count(x) > 0) by {
                    assert(self.dists_at(b_list, q).contains(x));
                }
            }
        }
    }

    /// At the start of a descent the path facts hold vacuously: nothing
    /// strictly above the subtree's own root has been compared yet.
    proof fn lemma_descent_init(&self, root: int, q: DataType)
        requires
            self.wf(),
            1 <= root < self.last_point,
        ensures
            self.in_subtree(root, root),
            self.descent_ok(root, root, q),
    {
        assert(self.in_sub(root, root, self.last_point as nat));
        assert forall|a: int|
            1 <= a < self.last_point && self.in_subtree(root, a) implies #[trigger] self.path_cmp(
            a,
            root,
            q,
        ) by {
            assert(self.wf_node(a));
            let n = self.node(a);
            self.lemma_in_sub_bounds(root, a, self.last_point as nat);
            if n.left_child != 0 && self.in_subtree(n.left_child as int, root) {
                self.lemma_in_sub_bounds(n.left_child as int, root, self.last_point as nat);
                assert(false);
            }
            if n.right_child != 0 && self.in_subtree(n.right_child as int, root) {
                self.lemma_in_sub_bounds(n.right_child as int, root, self.last_point as nat);
                assert(false);
            }
        }
    }

    /// One comparison-driven step from `x` to its child `c` keeps the path
    /// facts: every earlier comparison still points toward `c`, and the
    /// comparison at `x` itself points toward `c` by assumption.
    proof fn lemma_descend_step(&self, root: int, x: int, c: int, q: DataType, went_left: bool)
        requires
            self.wf(),
            1 <= x < self.last_point,
            self.in_subtree(root, x),
            self.descent_ok(root, x, q),
            c != 0,
            went_left ==> c == self.node(x).left_child,
            !went_left ==> c == self.node(x).right_child,
            went_left == (self.node(x).point.spec_axis(self.node(x).dimension as int)
                > q.spec_axis(self.node(x).dimension as int)),
        ensures
            1 <= c < self.last_point,
            self.in_subtree(root, c),
            self.descent_ok(root, c, q),
    {
        assert(self.wf_node(x));
        assert(self.in_sub(c, c, (self.last_point - 1) as nat));
        assert(self.in_sub(x, c, self.last_point as nat));
        self.lemma_in_sub_trans(root, x, c, self.last_point as nat);
        assert forall|a: int|
            1 <= a < self.last_point && self.in_subtree(root, a) implies #[trigger] self.path_cmp(
            a,
            c,
            q,
        ) by {
            assert(self.path_cmp(a, x, q));
            assert(self.wf_node(a));
            let n = self.node(a);
            if n.left_child != 0 && self.in_subtree(n.left_child as int, c) {
                if c == n.left_child {
                    // parent links agree, so `a` is `x` itself
                    assert(self.wf_node(c));
                    assert(a == x);
                } else {
                    self.lemma_in_sub_parent(n.left_child as int, c, self.last_point as nat);
                    assert(self.node(c).parent == x);
                    assert(self.in_subtree(n.left_child as int, x));
                }
            }
            if n.right_child != 0 && self.in_subtree(n.right_child as int, c) {
                if c == n.right_child {
                    assert(self.wf_node(c));
                    assert(a == x);
                } else {
                    self.lemma_in_sub_parent(n.right_child as int, c, self.last_point as nat);
                    assert(self.node(c).parent == x);
                    assert(self.in_subtree(n.right_child as int, x));
                }
            }
        }
    }

    /// Structural well-formedness of one occupied slot.
    spec fn wf_node(&self, i: int) -> bool {
        let n = self.tree@[i].unwrap();
        &&& n.point.spec_dims() == self.dims()
        &&& n.dimension < self.num_dimensions
        &&& n.level < i
        &&& n.level <= self.max_levels
        &&& (if i == 1 {
            &&& n.child_type is RootNode
            &&& n.parent == 0
            &&& n.level == 0
            &&& n.dimension == 0
        } else {
            &&& !(n.child_type is RootNode)
            &&& 1 <= n.parent < i
            &&& n.level == self.tree@[n.parent as int].unwrap().level + 1
            &&& n.dimension == (self.tree@[n.parent as int].unwrap().dimension + 1) % (
            self.num_dimensions as int)
            &&& (n.child_type is LeftChild ==> self.tree@[n.parent as int].unwrap().left_child
                == i)
            &&& (n.child_type is RightChild ==> self.tree@[n.parent as int].unwrap().right_child
                == i)
        })
        &&& (n.left_child != 0 ==> {
            &&& i < n.left_child < self.last_point
            &&& self.tree@[n.left_child as int].unwrap().parent == i
            &&& self.tree@[n.left_child as int].unwrap().child_type is LeftChild
            &&& self.tree@[n.left_child as int].unwrap().level == n.level + 1
        })
        &&& (n.right_child != 0 ==> {
            &&& i < n.right_child < self.last_point
            &&& self.tree@[n.right_child as int].unwrap().parent == i
            &&& self.tree@[n.right_child as int].unwrap().child_type is RightChild
            &&& self.tree@[n.right_child as int].unwrap().level == n.level + 1
        })
    }

    /// Structural well-formedness of the whole arena: slot 0 is the
    /// sentinel, slots `1 .. last_point` are exactly the occupied ones,
    /// capacity always exceeds the next free slot, and every node's links
    /// are mutually consistent.
    pub closed spec fn wf(&self) -> bool {
        &&& 1 <= self.num_dimensions
        &&& 1 <= self.last_point
        &&& self.last_point + 1 <= self.tree@.len()
        &&& self.max_levels + 1 <= self.last_point
        &&& self.tree@[0] is None
        &&& (forall|i: int| 1 <= i < self.last_point ==> (#[trigger] self.tree@[i]) is Some)
        &&& (forall|i: int|
            self.last_point <= i < self.tree@.len() ==> (#[trigger] self.tree@[i]) is None)
        &&& (forall|i: int| 1 <= i < self.last_point ==> #[trigger] self.wf_node(i))
        &&& (forall|i: int, u: int|
            1 <= i < self.last_point && 1 <= u < self.last_point ==> #[trigger] self.axis_ok(i, u))
    }

    /// Create a new tree with the given dimensionality and default capacity.
    pub fn new(dimensions: usize) -> (r: Self)
        requires
            1 <= dimensions,
        ensures
            r.wf(),
            r.dims() == dimensions,
            r.size() == 0,
            r.points() == Seq::<DataType>::empty(),
    {
        Self::with_capacity(dimensions, 100)
    }

    /// Create a new tree with the given dimensionality and storage for the
    /// given capacity.  At least the two permanent slots (sentinel and root)
    /// are always allocated.
    pub fn with_capacity(dimensions: usize, capacity: usize) -> (r: Self)
        requires
            1 <= dimensions,
        ensures
            r.wf(),
            r.dims() == dimensions,
            r.size() == 0,
            r.points() == Seq::<DataType>::empty(),
    {
        let mut tree: Vec<Option<Node<DataType>>> = Vec::with_capacity(capacity);
        tree.push(None);
        tree.push(None);
        while tree.len() < capacity
            invariant
                2 <= tree@.len(),
                forall|i: int| 0 <= i < tree@.len() ==> (#[trigger] tree@[i]) is None,
            decreases capacity - tree@.len(),
        {
            tree.push(None);
        }
        let r = KdTree { tree, num_dimensions: dimensions, max_levels: 0, last_point: 1 };
        proof {
            assert(r.points() =~= Seq::<DataType>::empty());
        }
        r
    }

    /// Getter for the configured dimensionality.
    pub fn get_num_dimensions(&self) -> (r: usize)
        ensures
            r == self.dims(),
    {
        self.num_dimensions
    }

    /// Walk from `root` downward, at each node going left exactly when the
    /// node is greater than the query along the node's split dimension,
    /// until the chosen child slot is absent; return that node's index and
    /// the role the absent child would have had.
    fn go_down(&self, query_point: &DataType, root: usize) -> (r: Result<(usize, NodeType), KdError>)
        requires
            self.wf(),
            root < self.tree@.len(),
            query_point.spec_dims() == self.dims(),
        ensures
            match r {
                Ok(pair) => {
                    &&& self.tree@[root as int] is Some
                    &&& 1 <= pair.0 < self.last_point
                    &&& !(pair.1 is RootNode)
                    &&& (pair.1 is LeftChild ==> self.tree@[pair.0 as int].unwrap().left_child
                        == 0)
                    &&& (pair.1 is RightChild ==> self.tree@[pair.0 as int].unwrap().right_child
                        == 0)
                    // the result lies on the comparison-driven path from
                    // `root`, and the role is the side the comparison at the
                    // result itself chose
                    &&& self.in_subtree(root as int, pair.0 as int)
                    &&& self.descent_ok(root as int, pair.0 as int, *query_point)
                    &&& (pair.1 is LeftChild == (self.node(pair.0 as int).point.spec_axis(
                        self.node(pair.0 as int).dimension as int,
                    ) > query_point.spec_axis(self.node(pair.0 as int).dimension as int)))
                },
                Err(e) => e == KdError::EmptyTree && self.tree@[root as int] is None,
            },
    {
        if self.tree[root].is_none() {
            return Err(KdError::EmptyTree);
        }
        proof {
            if root == 0 || root >= self.last_point {
                assert(self.tree@[root as int] is None);
            }
            assert(self.wf_node(root as int));
            self.lemma_descent_init(root as int, *query_point);
        }
        let mut index = root;
        loop
            invariant
                self.wf(),
                query_point.spec_dims() == self.dims(),
                1 <= index < self.last_point,
                self.tree@[index as int] is Some,
                self.tree@[root as int] is Some,
                self.in_subtree(root as int, index as int),
                self.descent_ok(root as int, index as int, *query_point),
            decreases self.last_point - self.tree@[index as int].unwrap().level,
        {
            proof {
                assert(self.wf_node(index as int));
            }
            if let Some(node) = &self.tree[index] {
                if node.point.greater(query_point, node.dimension) {
                    if node.left_child == 0 {
                        return Ok((index, NodeType::LeftChild));
                    }
                    proof {
                        self.lemma_descend_step(
                            root as int,
                            index as int,
                            node.left_child as int,
                            *query_point,
                            true,
                        );
                    }
                    index = node.left_child;
                } else {
                    if node.right_child == 0 {
                        return Ok((index, NodeType::RightChild));
                    }
                    proof {
                        self.lemma_descend_step(
                            root as int,
                            index as int,
                            node.right_child as int,
                            *query_point,
                            false,
                        );
                    }
                    index = node.right_child;
                }
            } else {
                proof {
                    assert(false);
                }
                return Err(KdError::EmptyTree);
            }
        }
    }

    /// The placement contract of insertion into a non-empty tree: some node
    /// `i` lies on the comparison-driven descent path from the root (every
    /// node whose subtree contains `i` compared toward `i`), the comparison
    /// at `i` itself chose a side whose child slot was absent, and the fresh
    /// slot was attached exactly there, as exactly that child.
    pub closed spec fn attach_ok(pre: Self, post: Self, q: DataType) -> bool {
        exists|i: int|
            {
                &&& 1 <= i < pre.last_point
                &&& pre.in_subtree(1, i)
                &&& #[trigger] pre.descent_ok(1, i, q)
                &&& post.node(pre.last_point as int).parent == i
                &&& (if pre.node(i).point.spec_axis(pre.node(i).dimension as int) > q.spec_axis(
                    pre.node(i).dimension as int,
                ) {
                    &&& pre.node(i).left_child == 0
                    &&& post.node(i).left_child == pre.last_point
                    &&& post.node(pre.last_point as int).child_type is LeftChild
                } else {
                    &&& pre.node(i).right_child == 0
                    &&& post.node(i).right_child == pre.last_point
                    &&& post.node(pre.last_point as int).child_type is RightChild
                })
            }
    }

    /// Add a point to the tree.
    ///
    /// Rejects the point, leaving the tree unchanged, exactly when its
    /// dimensionality differs from the tree's configured one.  Otherwise the
    /// point becomes the root if the tree is empty, or is attached as the
    /// missing child of the last node visited by descending comparisons from
    /// the root (`attach_ok`); the arena grows (roughly doubling) before the
    /// write when it is at capacity.
    pub fn add_point(&mut self, query_point: DataType) -> (r: Result<(), KdError>)
        requires
            old(self).wf(),
            old(self).size() < usize::MAX / 2 - 2,
        ensures
            final(self).wf(),
            final(self).dims() == old(self).dims(),
            match r {
                Ok(()) => {
                    &&& query_point.spec_dims() == old(self).dims()
                    &&& final(self).size() == old(self).size() + 1
                    &&& final(self).points() == old(self).points().push(query_point)
                    &&& old(self).size() > 0 ==> Self::attach_ok(
                        *old(self),
                        *final(self),
                        query_point,
                    )
                },
                Err(e) => {
                    &&& e == KdError::DimensionError
                    &&& query_point.spec_dims() != old(self).dims()
                    &&& *final(self) == *old(self)
                },
            },
    {
        if query_point.dimensions() != self.num_dimensions {
            return Err(KdError::DimensionError);
        }
        // Find the attachment point: the root slot if the tree is empty,
        // else the first node on the descent path with the relevant child
        // slot absent.
        let (parent_index, child_type) = if self.tree[1].is_none() {
            proof {
                assert(self.last_point == 1) by {
                    if self.last_point > 1 {
                        assert(self.tree@[1] is Some);
                    }
                }
            }
            (0usize, NodeType::RootNode)
        } else {
            match self.go_down(&query_point, 1) {
                Ok(pair) => pair,
                Err(_) => {
                    proof {
                        assert(false);
                    }
                    return Err(KdError::DimensionError);
                },
            }
        };
        let lp = self.last_point;
        let ghost pre = *self;
        // Dimension and level of the new node; attach the child link.
        let (current_dimension, current_level) = if lp == 1 {
            (0usize, 0usize)
        } else {
            proof {
                assert(self.wf_node(parent_index as int));
            }
            let pd: usize;
            let pl: usize;
            if let Some(node) = &mut self.tree[parent_index] {
                pd = node.dimension;
                pl = node.level;
                match child_type {
                    NodeType::LeftChild => {
                        node.left_child = lp;
                    },
                    NodeType::RightChild => {
                        node.right_child = lp;
                    },
                    NodeType::RootNode => {},
                }
            } else {
                proof {
                    assert(false);
                }
                return Err(KdError::DimensionError);
            }
            ((pd + 1) % self.num_dimensions, pl + 1)
        };
        // Update the maximum level seen.
        if current_level > self.max_levels {
            self.max_levels = current_level;
        }
        // Grow the arena (roughly doubling) if the next slot would exceed it.
        if lp + 1 >= self.tree.len() {
            let target = if lp < 2 {
                4usize
            } else {
                lp * 2
            };
            let ghost mid = *self;
            while self.tree.len() < target
                invariant
                    self.num_dimensions == mid.num_dimensions,
                    self.max_levels == mid.max_levels,
                    self.last_point == mid.last_point,
                    mid.tree@.len() <= self.tree@.len(),
                    forall|i: int|
                        0 <= i < mid.tree@.len() ==> #[trigger] self.tree@[i] == mid.tree@[i],
                    forall|i: int|
                        mid.tree@.len() <= i < self.tree@.len() ==> (#[trigger] self.tree@[i])
                            is None,
                decreases target - self.tree@.len(),
            {
                self.tree.push(None);
            }
        }
        // Write the node and advance the next-free-slot cursor.
        self.tree[lp] = Some(
            Node {
                point: query_point,
                child_type,
                parent: parent_index,
                left_child: 0,
                right_child: 0,
                dimension: current_dimension,
                level: current_level,
            },
        );
        self.last_point = lp + 1;
        proof {
            self.lemma_add_point_wf(pre, query_point, parent_index, child_type, lp);
            if lp != 1 {
                let i = parent_index as int;
                assert(pre.in_subtree(1, i));
                assert(pre.descent_ok(1, i, query_point));
                if pre.node(i).point.spec_axis(pre.node(i).dimension as int)
                    > query_point.spec_axis(pre.node(i).dimension as int) {
                    assert(child_type is LeftChild);
                } else {
                    assert(child_type is RightChild);
                }
                assert(Self::attach_ok(pre, *self, query_point));
            }
        }
        Ok(())
    }

    /// After `add_point` writes the new node, the arena is well-formed again
    /// and the stored points are the old ones plus the new point.
    proof fn lemma_add_point_wf(
        &self,
        pre: Self,
        query_point: DataType,
        parent_index: usize,
        child_type: NodeType,
        lp: usize,
    )
        requires
            pre.wf(),
            query_point.spec_dims() == pre.dims(),
            lp == pre.last_point,
            lp < usize::MAX / 2,
            self.num_dimensions == pre.num_dimensions,
            self.last_point == lp + 1,
            self.tree@.len() >= lp + 2,
            // the new node
            self.tree@[lp as int] is Some,
            self.tree@[lp as int].unwrap().point == query_point,
            self.tree@[lp as int].unwrap().child_type == child_type,
            self.tree@[lp as int].unwrap().parent == parent_index,
            self.tree@[lp as int].unwrap().left_child == 0,
            self.tree@[lp as int].unwrap().right_child == 0,
            // root insertion
            lp == 1 ==> {
                &&& child_type is RootNode
                &&& parent_index == 0
                &&& self.tree@[lp as int].unwrap().dimension == 0
                &&& self.tree@[lp as int].unwrap().level == 0
            },
            // interior insertion: the parent existed, had the relevant child
            // slot absent, and only that child link changed
            lp != 1 ==> {
                &&& 1 <= parent_index < lp
                &&& !(child_type is RootNode)
                &&& (child_type is LeftChild ==> pre.tree@[parent_index as int].unwrap().left_child
                    == 0)
                &&& (child_type is RightChild
                    ==> pre.tree@[parent_index as int].unwrap().right_child == 0)
                &&& self.tree@[parent_index as int] is Some
                &&& self.tree@[parent_index as int].unwrap().point == pre.tree@[
                parent_index as int].unwrap().point
                &&& self.tree@[parent_index as int].unwrap().child_type == pre.tree@[
                parent_index as int].unwrap().child_type
                &&& self.tree@[parent_index as int].unwrap().parent == pre.tree@[
                parent_index as int].unwrap().parent
                &&& self.tree@[parent_index as int].unwrap().dimension == pre.tree@[
                parent_index as int].unwrap().dimension
                &&& self.tree@[parent_index as int].unwrap().level == pre.tree@[
                parent_index as int].unwrap().level
                &&& (child_type is LeftChild ==> self.tree@[parent_index as int].unwrap().left_child
                    == lp && self.tree@[parent_index as int].unwrap().right_child == pre.tree@[
                parent_index as int].unwrap().right_child)
                &&& (child_type is RightChild ==> self.tree@[
                parent_index as int].unwrap().right_child == lp && self.tree@[
                parent_index as int].unwrap().left_child == pre.tree@[
                parent_index as int].unwrap().left_child)
                &&& self.tree@[lp as int].unwrap().dimension == (pre.tree@[
                parent_index as int].unwrap().dimension + 1) % (pre.num_dimensions as int)
                &&& self.tree@[lp as int].unwrap().level == pre.tree@[
                parent_index as int].unwrap().level + 1
            },
            // all other slots unchanged (at a root insertion no link was
            // touched, so the sentinel slot named as parent is unchanged too)
            forall|i: int|
                0 <= i < pre.tree@.len() && i != lp && (i != parent_index || lp == 1)
                    ==> #[trigger] self.tree@[i] == pre.tree@[i],
            forall|i: int|
                pre.tree@.len() <= i < self.tree@.len() && i != lp ==> (#[trigger] self.tree@[i])
                    is None,
            // descent facts for the attachment node
            lp != 1 ==> pre.descent_ok(1, parent_index as int, query_point),
            lp != 1 ==> (child_type is LeftChild) == (pre.node(parent_index as int).point.spec_axis(
                pre.node(parent_index as int).dimension as int,
            ) > query_point.spec_axis(pre.node(parent_index as int).dimension as int)),
            // max level tracking
            self.max_levels >= pre.max_levels,
            self.max_levels >= self.tree@[lp as int].unwrap().level,
            self.max_levels == pre.max_levels || self.max_levels == self.tree@[
            lp as int].unwrap().level,
        ensures
            self.wf(),
            self.points() == pre.points().push(query_point),
    {
        let new_node = self.tree@[lp as int].unwrap();
        assert(lp != 1 ==> pre.wf_node(parent_index as int));
        assert(new_node.level < lp);
        assert forall|i: int| 1 <= i < self.last_point implies #[trigger] self.wf_node(i) by {
            if i == lp {
                assert(self.wf_node(i));
            } else {
                assert(pre.wf_node(i));
                let n = self.tree@[i].unwrap();
                let pn = pre.tree@[i].unwrap();
                if i != parent_index {
                    // untouched node: its parent may be the updated slot,
                    // but only that parent's absent child link changed
                    assert(n == pn);
                }
                assert(self.wf_node(i));
            }
        }
        assert forall|i: int, u: int|
            1 <= i < self.last_point && 1 <= u < self.last_point implies #[trigger] self.axis_ok(
            i,
            u,
        ) by {
            if lp == 1 {
                // only the new root exists, and it has no children
                assert(i == 1 && u == 1);
            } else if i == lp {
                // the new leaf has no children
            } else {
                let la = child_type is LeftChild;
                assert(Self::leaf_extended(pre, *self, parent_index as int, lp as int, la));
                assert(pre.wf_node(i));
                let n = self.node(i);
                let pn = pre.node(i);
                if u == lp {
                    // a subtree of an old node reaches the new leaf either
                    // directly (it is the attachment node) or through the
                    // attachment node, which the descent comparisons cover
                    if n.left_child != 0 && self.in_subtree(n.left_child as int, lp as int) {
                        if n.left_child == lp {
                            assert(i == parent_index);
                        } else {
                            Self::lemma_ext_to_leaf(
                                pre,
                                *self,
                                parent_index as int,
                                lp as int,
                                la,
                                n.left_child as int,
                                (lp + 1) as nat,
                            );
                            pre.lemma_root_reaches(i);
                            assert(pre.path_cmp(i, parent_index as int, query_point));
                        }
                    }
                    if n.right_child != 0 && self.in_subtree(n.right_child as int, lp as int) {
                        if n.right_child == lp {
                            assert(i == parent_index);
                        } else {
                            Self::lemma_ext_to_leaf(
                                pre,
                                *self,
                                parent_index as int,
                                lp as int,
                                la,
                                n.right_child as int,
                                (lp + 1) as nat,
                            );
                            pre.lemma_root_reaches(i);
                            assert(pre.path_cmp(i, parent_index as int, query_point));
                        }
                    }
                } else {
                    // both slots are old: the ordering carries over since
                    // reachability among old slots is unchanged
                    assert(pre.axis_ok(i, u));
                    if n.left_child != 0 && self.in_subtree(n.left_child as int, u) {
                        if n.left_child == lp {
                            Self::lemma_ext_leaf_only(
                                pre,
                                *self,
                                parent_index as int,
                                lp as int,
                                la,
                                u,
                                (lp + 1) as nat,
                            );
                        } else {
                            Self::lemma_ext_old(
                                pre,
                                *self,
                                parent_index as int,
                                lp as int,
                                la,
                                n.left_child as int,
                                u,
                                (lp + 1) as nat,
                            );
                            pre.lemma_in_sub_bounds(n.left_child as int, u, (lp + 1) as nat);
                            pre.lemma_in_sub_mono(
                                n.left_child as int,
                                u,
                                (lp - pre.node(n.left_child as int).level) as nat,
                                lp as nat,
                            );
                            assert(pre.in_subtree(n.left_child as int, u));
                        }
                    }
                    if n.right_child != 0 && self.in_subtree(n.right_child as int, u) {
                        if n.right_child == lp {
                            Self::lemma_ext_leaf_only(
                                pre,
                                *self,
                                parent_index as int,
                                lp as int,
                                la,
                                u,
                                (lp + 1) as nat,
                            );
                        } else {
                            Self::lemma_ext_old(
                                pre,
                                *self,
                                parent_index as int,
                                lp as int,
                                la,
                                n.right_child as int,
                                u,
                                (lp + 1) as nat,
                            );
                            pre.lemma_in_sub_bounds(n.right_child as int, u, (lp + 1) as nat);
                            pre.lemma_in_sub_mono(
                                n.right_child as int,
                                u,
                                (lp - pre.node(n.right_child as int).level) as nat,
                                lp as nat,
                            );
                            assert(pre.in_subtree(n.right_child as int, u));
                        }
                    }
                }
            }
        }
        assert(self.wf());
        assert(self.points() =~= pre.points().push(query_point)) by {
            assert forall|i: int| 0 <= i < self.points().len() implies self.points()[i] == pre
                .points().push(query_point)[i] by {
                if i + 1 == lp {
                } else if i + 1 == parent_index {
                } else {
                    assert(self.tree@[i + 1] == pre.tree@[i + 1]);
                }
            }
        }
    }

    /// Every candidate entry names an occupied arena slot and carries that
    /// slot's true distance to the query.
    spec fn cands_ok(&self, cands: Candidates, query: DataType) -> bool {
        forall|i: int|
            0 <= i < cands.kept().len() ==> {
                &&& 1 <= #[trigger] cands.slots()[i] < self.last_point
                &&& cands.kept()[i] == self.tree@[cands.slots()[i]].unwrap().point.spec_distance(
                    &query,
                )
            }
    }

    /// Every returned neighbor is a stored point (coordinate for
    /// coordinate) paired with its true distance to the query.
    pub open spec fn results_ok(&self, v: Seq<Closest<DataType>>, query: DataType) -> bool {
        forall|i: int|
            0 <= i < v.len() ==> exists|j: int|
                {
                    &&& 0 <= j < self.points().len()
                    &&& same_point(&(#[trigger] v[i]).point, &self.points()[j])
                    &&& v[i].distance as int == self.points()[j].spec_distance(&query)
                }
    }

    /// The distances to `query` from the nodes in the given arena slots.
    spec fn dists_at(&self, slots: Seq<int>, query: DataType) -> Seq<int> {
        slots.map_values(|s: int| self.tree@[s].unwrap().point.spec_distance(&query))
    }

    /// Distances read off pairwise-distinct arena slots form a sub-multiset
    /// of the distances read off any duplicate-free universe of slots that
    /// contains them: no distance can be counted twice.
    proof fn lemma_dists_at_subset(
        &self,
        slots: Seq<int>,
        universe: Seq<int>,
        query: DataType,
    )
        requires
            slots.no_duplicates(),
            universe.no_duplicates(),
            forall|i: int| 0 <= i < slots.len() ==> universe.contains(#[trigger] slots[i]),
        ensures
            self.dists_at(slots, query).to_multiset().subset_of(
                self.dists_at(universe, query).to_multiset(),
            ),
        decreases slots.len(),
    {
        broadcast use vstd::seq_lib::group_to_multiset_ensures;
        broadcast use vstd::multiset::group_multiset_axioms;

        if slots.len() == 0 {
            assert(self.dists_at(slots, query) =~= Seq::<int>::empty());
            vstd::seq_lib::to_multiset_len(self.dists_at(slots, query));
            vstd::multiset::lemma_multiset_empty_len(self.dists_at(slots, query).to_multiset());
            assert(self.dists_at(slots, query).to_multiset()
                =~= vstd::multiset::Multiset::<int>::empty());
        } else {
            let s = slots.last();
            let rest = slots.drop_last();
            assert(universe.contains(s)) by {
                assert(slots[slots.len() - 1] == s);
            }
            let ui = choose|ui: int| 0 <= ui < universe.len() && universe[ui] == s;
            let u2 = universe.remove(ui);
            assert(rest.no_duplicates()) by {
                assert forall|i: int, j: int|
                    0 <= i < rest.len() && 0 <= j < rest.len() && i != j implies rest[i]
                    != rest[j] by {
                    assert(rest[i] == slots[i] && rest[j] == slots[j]);
                }
            }
            assert(u2.no_duplicates()) by {
                assert forall|i: int, j: int|
                    0 <= i < u2.len() && 0 <= j < u2.len() && i != j implies u2[i] != u2[j] by {
                    let i2 = if i < ui {
                        i
                    } else {
                        i + 1
                    };
                    let j2 = if j < ui {
                        j
                    } else {
                        j + 1
                    };
                    assert(u2[i] == universe[i2] && u2[j] == universe[j2]);
                }
            }
            assert forall|i: int| 0 <= i < rest.len() implies u2.contains(#[trigger] rest[i]) by {
                assert(rest[i] == slots[i]);
                assert(slots[i] != s);
                let ji = choose|ji: int| 0 <= ji < universe.len() && universe[ji] == slots[i];
                if ji < ui {
                    assert(u2[ji] == universe[ji]);
                } else {
                    assert(u2[ji - 1] == universe[ji]);
                }
            }
            self.lemma_dists_at_subset(rest, u2, query);
            let fs = self.tree@[s].unwrap().point.spec_distance(&query);
            assert(self.dists_at(slots, query) =~= self.dists_at(rest, query).push(fs));
            assert(self.dists_at(u2, query) =~= self.dists_at(universe, query).remove(ui)) by {
                assert forall|i: int|
                    0 <= i < u2.len() implies self.dists_at(u2, query)[i] == self.dists_at(
                    universe,
                    query,
                ).remove(ui)[i] by {
                    if i < ui {
                        assert(u2[i] == universe[i]);
                    } else {
                        assert(u2[i] == universe[i + 1]);
                    }
                }
            }
            assert(self.dists_at(universe, query)[ui] == fs);
            assert(self.dists_at(u2, query).to_multiset() == self.dists_at(universe, query)
                .to_multiset().remove(fs));
            assert(self.dists_at(universe, query).to_multiset().count(fs) > 0) by {
                assert(self.dists_at(universe, query).contains(fs));
            }
            assert forall|x: int|
                #[trigger] self.dists_at(slots, query).to_multiset().count(x) <= self.dists_at(
                universe,
                query,
            ).to_multiset().count(x) by {
                assert(self.dists_at(rest, query).to_multiset().count(x) <= self.dists_at(
                    u2,
                    query,
                ).to_multiset().count(x));
            }
        }
    }

    /// The maximum distance among the kept candidates; fails exactly when
    /// none are kept.
    fn get_max_min(&self, cands: &Candidates) -> (r: Result<u128, KdError>)
        requires
            cands.wf(),
        ensures
            match r {
                Ok(d) => {
                    &&& cands.kept().len() > 0
                    &&& cands.kept().contains(d as int)
                    &&& forall|j: int| 0 <= j < cands.kept().len() ==> cands.kept()[j] <= d as int
                },
                Err(e) => e == KdError::BinaryHeapError && cands.kept().len() == 0,
            },
    {
        if cands.len() == 0 {
            Err(KdError::BinaryHeapError)
        } else {
            Ok(cands.max_dist())
        }
    }

    /// Map the kept candidates back to owned points, worst first: the
    /// result is sorted by descending distance and keeps exactly the
    /// candidate distances.  `NodeMissing` is the defensive error for an
    /// arena index that no longer resolves; it is proven unreachable here.
    fn assemble(&self, cands: Candidates, query_point: &DataType) -> (r: Result<
        Vec<Closest<DataType>>,
        KdError,
    >)
        requires
            self.wf(),
            cands.wf(),
            self.cands_ok(cands, *query_point),
        ensures
            r is Ok,
            sorted_desc(dists_of(r.unwrap()@)),
            dists_of(r.unwrap()@).to_multiset() == cands.kept().to_multiset(),
            r.unwrap()@.len() == cands.kept().len(),
            self.results_ok(r.unwrap()@, *query_point),
    {
        let mut res: Vec<Closest<DataType>> = Vec::new();
        let mut c = cands;
        proof {
            assert(dists_of(res@) =~= Seq::<int>::empty());
            broadcast use vstd::seq_lib::group_to_multiset_ensures;
            broadcast use vstd::multiset::group_multiset_axioms;

            assert(dists_of(res@).to_multiset().add(c.kept().to_multiset()) =~= cands.kept()
                .to_multiset());
        }
        while c.len() > 0
            invariant
                self.wf(),
                c.wf(),
                self.cands_ok(c, *query_point),
                sorted_desc(dists_of(res@)),
                forall|i: int, j: int|
                    #![trigger dists_of(res@)[i], c.kept()[j]]
                    0 <= i < res@.len() && 0 <= j < c.kept().len() ==> dists_of(res@)[i]
                        >= c.kept()[j],
                dists_of(res@).to_multiset().add(c.kept().to_multiset()) == cands.kept()
                    .to_multiset(),
                self.results_ok(res@, *query_point),
            decreases c.kept().len(),
        {
            let ghost pre_c = c;
            let ghost pre_r = res@;
            let (slot, d) = c.extract_max();
            proof {
                broadcast use vstd::seq_lib::group_to_multiset_ensures;

                let j = choose|j: int|
                    0 <= j < pre_c.kept().len() && pre_c.slots()[j] == slot as int
                        && pre_c.kept()[j] == d as int;
                assert(1 <= slot < self.last_point);
                assert(d as int == self.tree@[slot as int].unwrap().point.spec_distance(
                    query_point,
                ));
                assert(self.tree@[slot as int] is Some);
                assert forall|i: int| 0 <= i < c.kept().len() implies {
                    &&& 1 <= #[trigger] c.slots()[i] < self.last_point
                    &&& c.kept()[i] == self.tree@[c.slots()[i]].unwrap().point.spec_distance(
                        query_point,
                    )
                } by {
                    assert(entry_from(c.slots(), c.kept(), i, pre_c.slots(), pre_c.kept()));
                    let j2 = choose|j2: int|
                        0 <= j2 < pre_c.kept().len() && pre_c.slots()[j2] == c.slots()[i]
                            && pre_c.kept()[j2] == c.kept()[i];
                    assert(1 <= pre_c.slots()[j2] < self.last_point);
                }
            }
            if let Some(node) = &self.tree[slot] {
                let p = node.point.clone_point();
                res.push(Closest { point: p, distance: d });
                proof {
                    broadcast use vstd::seq_lib::group_to_multiset_ensures;
                    broadcast use vstd::multiset::group_multiset_axioms;

                    let elt = res@[pre_r.len() as int];
                    assert(res@ =~= pre_r.push(elt));
                    lemma_map_values_push(pre_r, elt, |cl: Closest<DataType>| cl.distance as int);
                    assert(dists_of(res@) =~= dists_of(pre_r).push(d as int));
                    // conservation of the kept multiset
                    assert(pre_c.kept().to_multiset().count(d as int) > 0) by {
                        let j = choose|j: int|
                            0 <= j < pre_c.kept().len() && pre_c.slots()[j] == slot as int
                                && pre_c.kept()[j] == d as int;
                        assert(pre_c.kept().contains(d as int));
                    }
                    assert(dists_of(res@).to_multiset().add(c.kept().to_multiset())
                        =~= dists_of(pre_r).to_multiset().add(pre_c.kept().to_multiset()));
                    // order: the extracted maximum is below everything kept so far
                    assert forall|i: int, jj: int|
                        #![trigger dists_of(res@)[i], c.kept()[jj]]
                        0 <= i < res@.len() && 0 <= jj < c.kept().len() implies dists_of(res@)[i]
                        >= c.kept()[jj] by {
                        assert(entry_from(c.slots(), c.kept(), jj, pre_c.slots(), pre_c.kept()));
                        let j2 = choose|j2: int|
                            0 <= j2 < pre_c.kept().len() && pre_c.slots()[j2] == c.slots()[jj]
                                && pre_c.kept()[j2] == c.kept()[jj];
                        assert(c.kept()[jj] <= d as int);
                        if i < pre_r.len() {
                            assert(dists_of(res@)[i] == dists_of(pre_r)[i]);
                        }
                    }
                    assert forall|i: int, jj: int|
                        #![trigger dists_of(res@)[i], dists_of(res@)[jj]]
                        0 <= i <= jj < res@.len() implies dists_of(res@)[i] >= dists_of(
                        res@,
                    )[jj] by {
                        if jj < pre_r.len() {
                            assert(dists_of(res@)[i] == dists_of(pre_r)[i]);
                            assert(dists_of(res@)[jj] == dists_of(pre_r)[jj]);
                        } else if i < pre_r.len() {
                            assert(dists_of(res@)[i] == dists_of(pre_r)[i]);
                            assert(dists_of(pre_r)[i] >= pre_c.kept()[choose|j: int|
                                0 <= j < pre_c.kept().len() && pre_c.slots()[j] == slot as int
                                    && pre_c.kept()[j] == d as int]);
                        }
                    }
                    // the new entry is a stored point with its true distance
                    assert forall|i: int| 0 <= i < res@.len() implies exists|j: int|
                        {
                            &&& 0 <= j < self.points().len()
                            &&& same_point(&(#[trigger] res@[i]).point, &self.points()[j])
                            &&& res@[i].distance as int == self.points()[j].spec_distance(
                                query_point,
                            )
                        } by {
                        if i < pre_r.len() {
                            assert(res@[i] == pre_r[i]);
                        } else {
                            let j = slot - 1;
                            assert(self.points()[j as int] == self.tree@[slot as int].unwrap(
                            ).point);
                            assert(same_point(&res@[i].point, &self.points()[j as int]));
                        }
                    }
                }
            } else {
                proof {
                    assert(false);
                }
                return Err(KdError::NodeMissing);
            }
        }
        proof {
            broadcast use vstd::seq_lib::group_to_multiset_ensures;
            broadcast use vstd::multiset::group_multiset_axioms;

            vstd::seq_lib::to_multiset_len(c.kept());
            vstd::multiset::lemma_multiset_empty_len(c.kept().to_multiset());
            assert(c.kept().to_multiset() =~= vstd::multiset::Multiset::<int>::empty());
            assert(dists_of(res@).to_multiset() =~= cands.kept().to_multiset());
            vstd::seq_lib::to_multiset_len(dists_of(res@));
            vstd::seq_lib::to_multiset_len(cands.kept());
            assert(res@.len() == cands.kept().len());
        }
        Ok(res)
    }

    /// Linear reference search: scan every occupied arena slot, keeping the
    /// `n` smallest distances under the same bounded max-heap discipline as
    /// the tree search.  The correctness oracle: the result is exactly a
    /// top-`n` selection of the distances from the stored points to the
    /// query, sorted worst first.
    pub fn brute_force(&self, query_point: &DataType, n: usize) -> (r: Result<
        Vec<Closest<DataType>>,
        KdError,
    >)
        requires
            self.wf(),
        ensures
            match r {
                Ok(v) => {
                    &&& query_point.spec_dims() == self.dims()
                    &&& !(n == 0 && self.size() > 0)
                    &&& sorted_desc(dists_of(v@))
                    &&& is_topk(dists_of(v@), self.all_dists(*query_point), n as nat)
                    &&& self.results_ok(v@, *query_point)
                },
                Err(e) => {
                    if query_point.spec_dims() != self.dims() {
                        e == KdError::DimensionError
                    } else {
                        e == KdError::BinaryHeapError && n == 0 && self.size() > 0
                    }
                },
            },
    {
        if query_point.dimensions() != self.num_dimensions {
            return Err(KdError::DimensionError);
        }
        if n == 0 {
            if self.last_point > 1 {
                return Err(KdError::BinaryHeapError);
            }
            let empty_res: Vec<Closest<DataType>> = Vec::new();
            proof {
                broadcast use vstd::seq_lib::group_to_multiset_ensures;

                assert(dists_of(empty_res@) =~= Seq::<int>::empty());
                assert(self.all_dists(*query_point).len() == 0);
                assert(self.all_dists(*query_point) =~= Seq::<int>::empty());
            }
            return Ok(empty_res);
        }
        let mut cands = Candidates::new();
        let mut s: usize = 1;
        proof {
            assert(self.all_dists(*query_point).take(0) =~= Seq::<int>::empty());
        }
        while s < self.last_point
            invariant
                self.wf(),
                query_point.spec_dims() == self.dims(),
                n >= 1,
                1 <= s <= self.last_point,
                cands.wf(),
                self.cands_ok(cands, *query_point),
                cands.kept().len() <= n,
                is_topk(cands.kept(), self.all_dists(*query_point).take(s - 1), n as nat),
            decreases self.last_point - s,
        {
            proof {
                assert(self.tree@[s as int] is Some);
                assert(self.wf_node(s as int));
            }
            if let Some(node) = &self.tree[s] {
                let d = match node.point.distance(query_point) {
                    Ok(d) => d,
                    Err(e) => {
                        proof {
                            assert(false);
                        }
                        return Err(e);
                    },
                };
                let ghost pre_c = cands;
                cands.offer(s, d, n);
                proof {
                    let all0 = self.all_dists(*query_point).take(s - 1);
                    assert(self.all_dists(*query_point).take(s as int) =~= all0.push(d as int)) by {
                        assert(self.all_dists(*query_point)[s - 1] == self.points()[s
                            - 1].spec_distance(query_point));
                        assert(self.points()[s - 1] == node.point);
                    }
                    if pre_c.kept().len() >= n {
                        broadcast use vstd::seq_lib::group_to_multiset_ensures;

                        let j = choose|j: int|
                            {
                                &&& 0 <= j < pre_c.kept().len()
                                &&& (forall|y: int|
                                    0 <= y < pre_c.kept().len() ==> #[trigger] pre_c.kept()[y]
                                        <= pre_c.kept()[j])
                                &&& (if d < pre_c.kept()[j] {
                                    &&& cands.kept().to_multiset() == pre_c.kept().to_multiset()
                                        .remove(pre_c.kept()[j]).insert(d as int)
                                    &&& cands.slots().to_multiset() == pre_c.slots().to_multiset()
                                        .remove(pre_c.slots()[j]).insert(s as int)
                                } else {
                                    cands == pre_c
                                })
                            };
                        let m = pre_c.kept()[j];
                        assert(pre_c.kept().to_multiset().count(m) > 0) by {
                            assert(pre_c.kept().contains(m));
                        }
                        assert forall|y: int| #[trigger]
                            pre_c.kept().to_multiset().count(y) > 0 implies y <= m by {
                            assert(pre_c.kept().contains(y));
                            let yi = choose|yi: int|
                                0 <= yi < pre_c.kept().len() && pre_c.kept()[yi] == y;
                            assert(pre_c.kept()[yi] <= m);
                        }
                        assert(if d < m {
                            cands.kept().to_multiset() == pre_c.kept().to_multiset().remove(
                                m,
                            ).insert(d as int)
                        } else {
                            cands.kept().to_multiset() == pre_c.kept().to_multiset()
                        });
                    }
                    lemma_topk_step(pre_c.kept(), all0, n as nat, d as int, cands.kept());
                    assert forall|i: int| 0 <= i < cands.kept().len() implies {
                        &&& 1 <= #[trigger] cands.slots()[i] < self.last_point
                        &&& cands.kept()[i] == self.tree@[cands.slots()[i]].unwrap(
                        ).point.spec_distance(query_point)
                    } by {
                        assert(entry_ok(
                            cands.slots(),
                            cands.kept(),
                            i,
                            pre_c.slots(),
                            pre_c.kept(),
                            s as int,
                            d as int,
                        ));
                        if entry_from(cands.slots(), cands.kept(), i, pre_c.slots(), pre_c.kept()) {
                            let j = choose|j: int|
                                0 <= j < pre_c.kept().len() && pre_c.slots()[j] == cands.slots()[i]
                                    && pre_c.kept()[j] == cands.kept()[i];
                            assert(1 <= pre_c.slots()[j] < self.last_point);
                        }
                    }
                }
            } else {
                proof {
                    assert(false);
                }
            }
            s = s + 1;
        }
        proof {
            assert(self.all_dists(*query_point).take(self.last_point - 1) =~= self.all_dists(
                *query_point,
            ));
        }
        let result = match self.assemble(cands, query_point) {
            Ok(v) => v,
            Err(e) => {
                proof {
                    assert(false);
                }
                return Err(e);
            },
        };
        proof {
            assert(dists_of(result@).len() == result@.len());
            assert(is_topk(dists_of(result@), self.all_dists(*query_point), n as nat));
        }
        Ok(result)
    }

    /// The stored point in slot `u` is at least as far from the query as
    /// everything currently kept, and the store is full: pruning `u` was,
    /// and stays, justified.
    spec fn pruned_c(&self, cands: Candidates, n: nat, u: int, q: DataType) -> bool {
        &&& cands.kept().len() == n
        &&& forall|j: int|
            0 <= j < cands.kept().len() ==> #[trigger] cands.kept()[j] <= self.slot_dist(u, q)
    }

    /// `b` is a pending stop of the walk currently at `index` that still
    /// covers `u`: an unvisited node whose subtree holds `u`, being either
    /// the position itself (with `u` outside its already-exhausted
    /// children), or an ancestor of the position from whose not-yet-taken
    /// side `u` hangs.
    spec fn pw_at(&self, table: Seq<bool>, index: int, u: int, b: int) -> bool {
        &&& 1 <= b < self.last_point
        &&& !table[b]
        &&& self.in_subtree(b, u)
        &&& (if b == index {
            forall|c: int|
                #![trigger self.in_subtree(c, u)]
                (c == self.node(b).left_child || c == self.node(b).right_child) && c != 0
                    && table[c] ==> !self.in_subtree(c, u)
        } else {
            &&& self.in_subtree(b, index)
            &&& (forall|c: int|
                #![trigger self.in_subtree(c, u)]
                (c == self.node(b).left_child || c == self.node(b).right_child) && c != 0
                    && self.in_subtree(c, index) ==> !self.in_subtree(c, u))
        })
    }

    /// Some pending stop still covers `u`.
    spec fn pending_witness(&self, table: Seq<bool>, index: int, u: int) -> bool {
        exists|b: int| #[trigger] self.pw_at(table, index, u, b)
    }

    /// Every stored point is accounted for at every step of the walk: it
    /// was scored already, a pending stop still covers it, or it was pruned
    /// with justification.
    spec fn search_covered(
        &self,
        table: Seq<bool>,
        index: int,
        cands: Candidates,
        n: nat,
        q: DataType,
        u: int,
    ) -> bool {
        table[u] || self.pending_witness(table, index, u) || self.pruned_c(cands, n, u, q)
    }

    /// From the descent facts, every node on the path from `root` to `idx`
    /// compares toward `idx`.
    proof fn lemma_descent_w(&self, root: int, idx: int, q: DataType)
        requires
            self.wf(),
            self.descent_ok(root, idx, q),
        ensures
            forall|a: int|
                #![trigger self.in_subtree(a, idx)]
                1 <= a < self.last_point && self.in_subtree(root, a) && self.in_subtree(a, idx)
                    && a != idx ==> self.cmp_child(a, q) != 0 && self.in_subtree(
                    self.cmp_child(a, q),
                    idx,
                ),
    {
        assert forall|a: int|
            1 <= a < self.last_point && self.in_subtree(root, a) && self.in_subtree(a, idx) && a
                != idx implies self.cmp_child(a, q) != 0 && self.in_subtree(
            #[trigger] self.cmp_child(a, q),
            idx,
        ) by {
            assert(self.path_cmp(a, idx, q));
            assert(self.wf_node(a));
            self.lemma_strict_child(a, idx);
            let c = choose|c: int|
                (c == self.node(a).left_child || c == self.node(a).right_child) && c != 0
                    && #[trigger] self.in_subtree(c, idx);
            if c == self.node(a).left_child {
                assert(self.cmp_gt(a, q));
            } else {
                assert(!self.cmp_gt(a, q));
            }
        }
    }

    /// Find the `n` closest stored points to the query, worst first: a
    /// correct bounded top-`n` selection (`is_topk`) from the distances of
    /// all stored points, with exactly `min(n, size)` entries — so when `n`
    /// exceeds the number of stored points, the result holds every stored
    /// point.
    ///
    /// Fails with `DimensionError` exactly when the query's dimensionality
    /// differs from the tree's, else with `EmptyTree` exactly when no point
    /// was inserted, else with `BinaryHeapError` exactly when `n == 0`.
    ///
    /// The search descends to the query's leaf region, then walks back
    /// toward the root along parent links; a per-slot visitation table
    /// plays the role of a recursion stack: arriving at a visited node
    /// means its subtree is exhausted, so the walk resumes at its parent.
    /// A sibling subtree is entered only while the candidate store is not
    /// full or when the distance from the query to the node's splitting
    /// hyperplane is below the current worst retained distance, since that
    /// split-plane distance lower-bounds the distance to everything on the
    /// far side.
    #[verifier::rlimit(100)]
    pub fn find_n_closest(&self, query_point: &DataType, n: usize) -> (r: Result<
        Vec<Closest<DataType>>,
        KdError,
    >)
        requires
            self.wf(),
        ensures
            match r {
                Ok(v) => {
                    &&& query_point.spec_dims() == self.dims()
                    &&& self.size() > 0
                    &&& n >= 1
                    &&& 1 <= v@.len() <= n
                    &&& v@.len() == (if n <= self.size() {
                        n as int
                    } else {
                        self.size() as int
                    })
                    &&& sorted_desc(dists_of(v@))
                    &&& self.results_ok(v@, *query_point)
                    &&& is_topk(dists_of(v@), self.all_dists(*query_point), n as nat)
                    &&& dists_of(v@).to_multiset().subset_of(
                        self.all_dists(*query_point).to_multiset(),
                    )
                },
                Err(e) => {
                    if query_point.spec_dims() != self.dims() {
                        e == KdError::DimensionError
                    } else if self.size() == 0 {
                        e == KdError::EmptyTree
                    } else {
                        e == KdError::BinaryHeapError && n == 0
                    }
                },
            },
    {
        if query_point.dimensions() != self.num_dimensions {
            return Err(KdError::DimensionError);
        }
        // Descend to the bin containing the query point.
        let (mut index, mut child_type) = match self.go_down(query_point, 1) {
            Ok(pair) => pair,
            Err(e) => {
                proof {
                    if self.last_point > 1 {
                        assert(self.tree@[1] is Some);
                    }
                }
                return Err(e);
            },
        };
        if n == 0 {
            proof {
                assert(self.last_point > 1);
            }
            return Err(KdError::BinaryHeapError);
        }
        // One flag per arena slot: a flagged node's subtree is exhausted.
        let mut searched_table: Vec<bool> = Vec::new();
        while searched_table.len() < self.last_point
            invariant
                searched_table@.len() <= self.last_point,
                forall|i: int|
                    0 <= i < searched_table@.len() ==> !(#[trigger] searched_table@[i]),
            decreases self.last_point - searched_table@.len(),
        {
            searched_table.push(false);
        }
        let mut cands = Candidates::new();
        let ghost mut flag_list: Seq<int> = Seq::empty();
        proof {
            broadcast use vstd::seq_lib::group_to_multiset_ensures;
            broadcast use vstd::multiset::group_multiset_axioms;

            assert forall|x: int| #[trigger] cands.slots().to_multiset().count(x) <= 1 by {
                if cands.slots().to_multiset().count(x) > 0 {
                    assert(cands.slots().contains(x));
                }
            }
            // an empty store is a correct top-n of the empty scored list
            assert(self.dists_at(flag_list, *query_point) =~= Seq::<int>::empty());
            vstd::seq_lib::to_multiset_len(self.dists_at(flag_list, *query_point));
            vstd::multiset::lemma_multiset_empty_len(
                self.dists_at(flag_list, *query_point).to_multiset(),
            );
            assert(self.dists_at(flag_list, *query_point).to_multiset()
                =~= vstd::multiset::Multiset::<int>::empty());
            vstd::seq_lib::to_multiset_len(cands.kept());
            vstd::multiset::lemma_multiset_empty_len(cands.kept().to_multiset());
            assert(cands.kept().to_multiset() =~= vstd::multiset::Multiset::<int>::empty());
            assert(is_topk(cands.kept(), self.dists_at(flag_list, *query_point), n as nat));
            // every stored point starts out covered by a pending stop
            assert forall|u: int| 1 <= u < self.last_point implies #[trigger] self.search_covered(
                searched_table@,
                index as int,
                cands,
                n as nat,
                *query_point,
                u,
            ) by {
                self.lemma_root_reaches(u);
                self.lemma_lca_witness(1, u, index as int);
                let b = choose|b: int|
                    {
                        &&& #[trigger] self.in_subtree(1, b)
                        &&& self.in_subtree(b, u)
                        &&& self.in_subtree(b, index as int)
                        &&& (b == index as int || (forall|c: int|
                            (c == self.node(b).left_child || c == self.node(b).right_child) && c
                                != 0 && #[trigger] self.in_subtree(c, index as int)
                                ==> !self.in_subtree(c, u)))
                    };
                self.lemma_in_sub_bounds(1, b, self.last_point as nat);
                assert(self.pw_at(searched_table@, index as int, u, b));
                assert(self.pending_witness(searched_table@, index as int, u));
            }
            // the descent facts give the comparison-path invariant
            self.lemma_descent_w(1, index as int, *query_point);
            assert forall|a: int|
                #![trigger self.in_subtree(a, index as int)]
                1 <= a < self.last_point && !searched_table@[a] && self.in_subtree(
                    a,
                    index as int,
                ) && a != index implies self.cmp_child(a, *query_point) != 0 && self.in_subtree(
                self.cmp_child(a, *query_point),
                index as int,
            ) by {
                self.lemma_root_reaches(a);
            }
        }
        // Walk back up the tree, scoring each node once and diving into a
        // sibling subtree whenever it might hold a closer point; the walk
        // ends when it moves above the root, onto the sentinel slot.
        while index != 0
            invariant
                self.wf(),
                query_point.spec_dims() == self.dims(),
                n >= 1,
                searched_table@.len() == self.last_point,
                index < self.last_point,
                cands.wf(),
                self.cands_ok(cands, *query_point),
                cands.kept().len() <= n,
                cands.kept().len() == 0 ==> index != 0 && (forall|i: int|
                    0 <= i < searched_table@.len() ==> !(#[trigger] searched_table@[i])),
                // a node is kept at most once: its flag is set when it is
                // scored, and a flagged node is never scored again
                forall|i: int|
                    0 <= i < cands.slots().len() ==> searched_table@[#[trigger] cands.slots()[i]],
                forall|x: int| #[trigger] cands.slots().to_multiset().count(x) <= 1,
                // every scored node is on the scored list exactly once
                forall|k: int|
                    0 <= k < flag_list.len() ==> 1 <= #[trigger] flag_list[k] < self.last_point
                        && searched_table@[flag_list[k]],
                forall|u: int|
                    1 <= u < self.last_point && #[trigger] searched_table@[u]
                        ==> flag_list.contains(u),
                flag_list.no_duplicates(),
                // the store is a correct bounded top-n of the scored nodes
                is_topk(cands.kept(), self.dists_at(flag_list, *query_point), n as nat),
                // every stored point is scored, pending, or justifiably pruned
                forall|u: int|
                    1 <= u < self.last_point ==> #[trigger] self.search_covered(
                        searched_table@,
                        index as int,
                        cands,
                        n as nat,
                        *query_point,
                        u,
                    ),
                // unvisited strict ancestors of the position compare toward it
                forall|a: int|
                    #![trigger self.in_subtree(a, index as int)]
                    1 <= a < self.last_point && !searched_table@[a] && self.in_subtree(
                        a,
                        index as int,
                    ) && a != index ==> self.cmp_child(a, *query_point) != 0 && self.in_subtree(
                        self.cmp_child(a, *query_point),
                        index as int,
                    ),
                // scored regions hang off the comparison path to the position
                forall|f: int, a: int|
                    #![trigger self.in_subtree(a, f), searched_table@[f]]
                    1 <= f < self.last_point && searched_table@[f] && 1 <= a < self.last_point
                        && !searched_table@[a] && self.in_subtree(a, f) && a != f
                        ==> self.cmp_child(a, *query_point) != 0 && self.in_subtree(
                        self.cmp_child(a, *query_point),
                        f,
                    ) && self.in_subtree(a, index as int),
                // at an unvisited position the walk arrived from the side its
                // own comparison chooses, and that side is already exhausted
                index != 0 && !searched_table@[index as int] ==> {
                    &&& !(child_type is RootNode)
                    &&& (child_type is LeftChild) == self.cmp_gt(index as int, *query_point)
                    &&& (child_type is LeftChild ==> self.node(index as int).left_child == 0
                        || searched_table@[self.node(index as int).left_child as int])
                    &&& (child_type is RightChild ==> self.node(index as int).right_child == 0
                        || searched_table@[self.node(index as int).right_child as int])
                },
            decreases
                    num_unvisited(searched_table@),
                    (if index != 0 {
                        self.tree@[index as int].unwrap().level + 1
                    } else {
                        0
                    }),
        {
            proof {
                assert(self.tree@[index as int] is Some);
                assert(self.wf_node(index as int));
            }
            if let Some(node) = &self.tree[index] {
                if searched_table[index] {
                    // Already scored: the subtree beneath is exhausted, so
                    // resume at the parent's decision point.
                    let ghost x = index as int;
                    child_type = node.child_type;
                    index = node.parent;
                    proof {
                        let q = *query_point;
                        let lp = self.last_point as int;
                        let p = index as int;
                        let table = searched_table@;
                        if p == 0 {
                            assert(x == 1);
                            assert forall|u: int| 1 <= u < lp implies #[trigger] self.search_covered(
                                table,
                                0,
                                cands,
                                n as nat,
                                q,
                                u,
                            ) by {
                                assert(self.search_covered(table, x, cands, n as nat, q, u));
                                if !table[u] && self.pending_witness(table, x, u) {
                                    let b = choose|b: int| #[trigger] self.pw_at(table, x, u, b);
                                    assert(b != 1);
                                    assert(self.in_subtree(b, 1));
                                    self.lemma_in_sub_bounds(b, 1, self.last_point as nat);
                                    assert(self.wf_node(b));
                                    assert(false);
                                }
                            }
                            assert forall|f: int, a: int|
                                #![trigger self.in_subtree(a, f), table[f]]
                                1 <= f < lp && table[f] && 1 <= a < lp && !table[a]
                                    && self.in_subtree(a, f) && a != f implies self.cmp_child(
                                a,
                                q,
                            ) != 0 && self.in_subtree(self.cmp_child(a, q), f) && self.in_subtree(
                                a,
                                0,
                            ) by {
                                assert(self.in_subtree(a, x));
                                self.lemma_in_sub_bounds(a, 1, self.last_point as nat);
                                assert(self.wf_node(a));
                                assert(a == 1);
                                assert(false);
                            }
                            // the sentinel is nobody's descendant
                            assert forall|a: int|
                                #![trigger self.in_subtree(a, 0)]
                                1 <= a < lp && !table[a] && self.in_subtree(a, 0) && a
                                    != 0 implies self.cmp_child(a, q) != 0 && self.in_subtree(
                                self.cmp_child(a, q),
                                0,
                            ) by {
                                self.lemma_in_sub_bounds(a, 0, self.last_point as nat);
                                assert(false);
                            }
                        } else {
                            assert(self.wf_node(p));
                            assert(self.node(p).left_child == x || self.node(p).right_child == x);
                            assert(self.in_sub(x, x, (lp - 1) as nat));
                            assert(self.in_sub(p, x, lp as nat));
                            // coverage at the parent
                            assert forall|u: int| 1 <= u < lp implies #[trigger] self.search_covered(
                                table,
                                p,
                                cands,
                                n as nat,
                                q,
                                u,
                            ) by {
                                assert(self.search_covered(table, x, cands, n as nat, q, u));
                                if !table[u] && self.pending_witness(table, x, u) {
                                    let b = choose|b: int| #[trigger] self.pw_at(table, x, u, b);
                                    assert(b != x);
                                    if b == p {
                                        assert forall|c: int|
                                            #![trigger self.in_subtree(c, u)]
                                            (c == self.node(p).left_child || c == self.node(
                                                p,
                                            ).right_child) && c != 0 && table[c] implies !self.in_subtree(
                                            c,
                                            u,
                                        ) by {
                                            assert(self.in_sub(c, c, (lp - 1) as nat));
                                            assert(self.in_sub(p, c, lp as nat));
                                            assert(self.in_subtree(p, c));
                                            // the scored child sits on the comparison side,
                                            // which is the side the walk came from
                                            assert(self.in_subtree(p, x));
                                            assert(self.cmp_child(p, q) != 0 && self.in_subtree(
                                                self.cmp_child(p, q),
                                                x,
                                            ));
                                            self.lemma_child_unique(p, self.cmp_child(p, q), x, x);
                                            if c != x {
                                                assert(self.cmp_child(p, q) != 0
                                                    && self.in_subtree(self.cmp_child(p, q), c));
                                                self.lemma_child_unique(p, c, x, c);
                                            }
                                            assert(!self.in_subtree(x, u));
                                        }
                                        assert(self.pw_at(table, p, u, p));
                                        assert(self.pending_witness(table, p, u));
                                    } else {
                                        self.lemma_in_sub_parent(b, x, self.last_point as nat);
                                        assert(self.in_subtree(b, p));
                                        assert forall|c: int|
                                            #![trigger self.in_subtree(c, u)]
                                            (c == self.node(b).left_child || c == self.node(
                                                b,
                                            ).right_child) && c != 0 && self.in_subtree(
                                            c,
                                            p,
                                        ) implies !self.in_subtree(c, u) by {
                                            self.lemma_in_sub_trans(c, p, x, self.last_point as nat);
                                            assert(self.in_subtree(c, x));
                                        }
                                        assert(self.pw_at(table, p, u, b));
                                        assert(self.pending_witness(table, p, u));
                                    }
                                }
                            }
                            // scored regions still hang off the path
                            assert forall|f: int, a: int|
                                #![trigger self.in_subtree(a, f), table[f]]
                                1 <= f < lp && table[f] && 1 <= a < lp && !table[a]
                                    && self.in_subtree(a, f) && a != f implies self.cmp_child(
                                a,
                                q,
                            ) != 0 && self.in_subtree(self.cmp_child(a, q), f) && self.in_subtree(
                                a,
                                p,
                            ) by {
                                assert(self.in_subtree(a, x));
                                assert(a != x);
                                self.lemma_in_sub_parent(a, x, self.last_point as nat);
                            }
                            // unvisited ancestors still compare toward the position
                            assert forall|a: int|
                                #![trigger self.in_subtree(a, p)]
                                1 <= a < lp && !table[a] && self.in_subtree(a, p) && a
                                    != p implies self.cmp_child(a, q) != 0 && self.in_subtree(
                                self.cmp_child(a, q),
                                p,
                            ) by {
                                self.lemma_in_sub_trans(a, p, x, self.last_point as nat);
                                assert(self.in_subtree(a, x));
                                assert(a != x);
                                assert(self.cmp_child(a, q) != 0 && self.in_subtree(
                                    self.cmp_child(a, q),
                                    x,
                                ));
                                if self.cmp_child(a, q) == x {
                                    assert(self.wf_node(a));
                                    assert(self.wf_node(x));
                                    assert(false);
                                }
                                self.lemma_in_sub_parent(
                                    self.cmp_child(a, q),
                                    x,
                                    self.last_point as nat,
                                );
                            }
                            // the arrival role at an unvisited parent is the
                            // comparison side, and that side is exhausted
                            if !table[p] {
                                assert(self.in_subtree(p, x));
                                assert(self.cmp_child(p, q) != 0 && self.in_subtree(
                                    self.cmp_child(p, q),
                                    x,
                                ));
                                self.lemma_child_unique(p, self.cmp_child(p, q), x, x);
                                assert(self.cmp_child(p, q) == x);
                                assert(self.wf_node(x));
                                if self.node(p).left_child == x {
                                    assert(self.node(x).child_type is LeftChild);
                                } else {
                                    assert(self.node(x).child_type is RightChild);
                                }
                            }
                            assert(self.wf_node(p));
                        }
                    }
                } else {
                    let ghost x = index as int;
                    let ghost q = *query_point;
                    // Score this node.
                    let d = match node.point.distance(query_point) {
                        Ok(d) => d,
                        Err(e) => {
                            proof {
                                assert(false);
                            }
                            return Err(e);
                        },
                    };
                    let ghost pre_c = cands;
                    let ghost pre_t = searched_table@;
                    let ghost pre_fl = flag_list;
                    cands.offer(index, d, n);
                    searched_table[index] = true;
                    proof {
                        flag_list = flag_list.push(x);
                        lemma_unvisited_update(pre_t, index as int);
                        assert forall|i: int| 0 <= i < cands.kept().len() implies {
                            &&& 1 <= #[trigger] cands.slots()[i] < self.last_point
                            &&& cands.kept()[i] == self.tree@[cands.slots()[i]].unwrap(
                            ).point.spec_distance(query_point)
                        } by {
                            assert(entry_ok(
                                cands.slots(),
                                cands.kept(),
                                i,
                                pre_c.slots(),
                                pre_c.kept(),
                                index as int,
                                d as int,
                            ));
                            if entry_from(
                                cands.slots(),
                                cands.kept(),
                                i,
                                pre_c.slots(),
                                pre_c.kept(),
                            ) {
                                let j = choose|j: int|
                                    0 <= j < pre_c.kept().len() && pre_c.slots()[j]
                                        == cands.slots()[i] && pre_c.kept()[j] == cands.kept()[i];
                                assert(1 <= pre_c.slots()[j] < self.last_point);
                            }
                        }
                        broadcast use vstd::seq_lib::group_to_multiset_ensures;

                        assert(searched_table@ =~= pre_t.update(index as int, true));
                        // the scored slot was unflagged, so it was not kept yet
                        assert(pre_c.slots().to_multiset().count(index as int) == 0) by {
                            if pre_c.slots().to_multiset().count(index as int) > 0 {
                                assert(pre_c.slots().contains(index as int));
                                let k = choose|k: int|
                                    0 <= k < pre_c.slots().len() && pre_c.slots()[k]
                                        == index as int;
                                assert(pre_t[pre_c.slots()[k]]);
                            }
                        }
                        // every kept slot is flagged
                        assert forall|i: int|
                            0 <= i < cands.slots().len() implies searched_table@[#[trigger] cands.slots()[i]] by {
                            assert(entry_ok(
                                cands.slots(),
                                cands.kept(),
                                i,
                                pre_c.slots(),
                                pre_c.kept(),
                                index as int,
                                d as int,
                            ));
                            if entry_from(
                                cands.slots(),
                                cands.kept(),
                                i,
                                pre_c.slots(),
                                pre_c.kept(),
                            ) {
                                let j = choose|j: int|
                                    0 <= j < pre_c.kept().len() && pre_c.slots()[j]
                                        == cands.slots()[i] && pre_c.kept()[j] == cands.kept()[i];
                                assert(pre_t[pre_c.slots()[j]]);
                            }
                        }
                        // no slot is kept twice
                        if pre_c.kept().len() < n {
                            assert forall|y: int| #[trigger]
                                cands.slots().to_multiset().count(y) <= 1 by {
                                assert(cands.slots().to_multiset() == pre_c.slots().to_multiset()
                                    .insert(index as int));
                            }
                        } else {
                            let j = choose|j: int|
                                {
                                    &&& 0 <= j < pre_c.kept().len()
                                    &&& (forall|y: int|
                                        0 <= y < pre_c.kept().len() ==> #[trigger] pre_c.kept()[y]
                                            <= pre_c.kept()[j])
                                    &&& (if d < pre_c.kept()[j] {
                                        &&& cands.kept().to_multiset() == pre_c.kept()
                                            .to_multiset().remove(pre_c.kept()[j]).insert(d as int)
                                        &&& cands.slots().to_multiset() == pre_c.slots()
                                            .to_multiset().remove(pre_c.slots()[j]).insert(
                                            index as int,
                                        )
                                    } else {
                                        cands == pre_c
                                    })
                                };
                            assert forall|y: int| #[trigger]
                                cands.slots().to_multiset().count(y) <= 1 by {
                                if d < pre_c.kept()[j] {
                                    assert(cands.slots().to_multiset() == pre_c.slots()
                                        .to_multiset().remove(pre_c.slots()[j]).insert(
                                        index as int,
                                    ));
                                }
                            }
                        }
                        // the scored distance joins the scored list
                        assert(d as int == self.slot_dist(x, q));
                        let all0 = self.dists_at(pre_fl, q);
                        assert(self.dists_at(flag_list, q) =~= all0.push(d as int));
                        if pre_c.kept().len() >= n {
                            let j = choose|j: int|
                                {
                                    &&& 0 <= j < pre_c.kept().len()
                                    &&& (forall|y: int|
                                        0 <= y < pre_c.kept().len() ==> #[trigger] pre_c.kept()[y]
                                            <= pre_c.kept()[j])
                                    &&& (if d < pre_c.kept()[j] {
                                        &&& cands.kept().to_multiset() == pre_c.kept()
                                            .to_multiset().remove(pre_c.kept()[j]).insert(d as int)
                                        &&& cands.slots().to_multiset() == pre_c.slots()
                                            .to_multiset().remove(pre_c.slots()[j]).insert(
                                            index as int,
                                        )
                                    } else {
                                        cands == pre_c
                                    })
                                };
                            let m = pre_c.kept()[j];
                            assert(pre_c.kept().to_multiset().count(m) > 0) by {
                                assert(pre_c.kept().contains(m));
                            }
                            assert forall|y: int| #[trigger]
                                pre_c.kept().to_multiset().count(y) > 0 implies y <= m by {
                                assert(pre_c.kept().contains(y));
                                let yi = choose|yi: int|
                                    0 <= yi < pre_c.kept().len() && pre_c.kept()[yi] == y;
                                assert(pre_c.kept()[yi] <= m);
                            }
                            assert(if d < m {
                                cands.kept().to_multiset() == pre_c.kept().to_multiset().remove(
                                    m,
                                ).insert(d as int)
                            } else {
                                cands.kept().to_multiset() == pre_c.kept().to_multiset()
                            });
                        }
                        lemma_topk_step(pre_c.kept(), all0, n as nat, d as int, cands.kept());
                        // scored-list bookkeeping
                        assert forall|k: int| 0 <= k < flag_list.len() implies 1
                            <= #[trigger] flag_list[k] < self.last_point
                            && searched_table@[flag_list[k]] by {
                            if k < pre_fl.len() {
                                assert(flag_list[k] == pre_fl[k]);
                            }
                        }
                        assert forall|u: int|
                            1 <= u < self.last_point
                                && #[trigger] searched_table@[u] implies flag_list.contains(u) by {
                            if u == x {
                                assert(flag_list[flag_list.len() - 1] == x);
                            } else {
                                assert(pre_t[u]);
                                assert(pre_fl.contains(u));
                                let k = choose|k: int| 0 <= k < pre_fl.len() && pre_fl[k] == u;
                                assert(flag_list[k] == u);
                            }
                        }
                        assert(flag_list.no_duplicates()) by {
                            assert forall|i: int, k: int|
                                0 <= i < flag_list.len() && 0 <= k < flag_list.len() && i
                                    != k implies flag_list[i] != flag_list[k] by {
                                if i < pre_fl.len() && k < pre_fl.len() {
                                    assert(flag_list[i] == pre_fl[i] && flag_list[k] == pre_fl[k]);
                                } else if i < pre_fl.len() {
                                    assert(flag_list[k] == x && flag_list[i] == pre_fl[i]);
                                    assert(pre_t[pre_fl[i]]);
                                } else {
                                    assert(flag_list[i] == x && flag_list[k] == pre_fl[k]);
                                    assert(pre_t[pre_fl[k]]);
                                }
                            }
                        }
                        // prune justifications survive the offer
                        assert forall|u: int|
                            1 <= u < self.last_point && self.pruned_c(
                                pre_c,
                                n as nat,
                                u,
                                q,
                            ) implies self.pruned_c(cands, n as nat, u, q) by {
                            let jm = choose|jm: int|
                                {
                                    &&& 0 <= jm < pre_c.kept().len()
                                    &&& (forall|y: int|
                                        0 <= y < pre_c.kept().len() ==> #[trigger] pre_c.kept()[y]
                                            <= pre_c.kept()[jm])
                                    &&& (if d < pre_c.kept()[jm] {
                                        &&& cands.kept().to_multiset() == pre_c.kept()
                                            .to_multiset().remove(pre_c.kept()[jm]).insert(
                                            d as int,
                                        )
                                        &&& cands.slots().to_multiset() == pre_c.slots()
                                            .to_multiset().remove(pre_c.slots()[jm]).insert(
                                            index as int,
                                        )
                                    } else {
                                        cands == pre_c
                                    })
                                };
                            assert forall|jj: int|
                                0 <= jj < cands.kept().len() implies #[trigger] cands.kept()[jj]
                                <= self.slot_dist(u, q) by {
                                assert(entry_ok(
                                    cands.slots(),
                                    cands.kept(),
                                    jj,
                                    pre_c.slots(),
                                    pre_c.kept(),
                                    index as int,
                                    d as int,
                                ));
                                if entry_from(
                                    cands.slots(),
                                    cands.kept(),
                                    jj,
                                    pre_c.slots(),
                                    pre_c.kept(),
                                ) {
                                    let j2 = choose|j2: int|
                                        0 <= j2 < pre_c.kept().len() && pre_c.slots()[j2]
                                            == cands.slots()[jj] && pre_c.kept()[j2]
                                            == cands.kept()[jj];
                                    assert(pre_c.kept()[j2] <= self.slot_dist(u, q));
                                } else {
                                    if d < pre_c.kept()[jm] {
                                        assert(pre_c.kept()[jm] <= self.slot_dist(u, q));
                                    } else {
                                        assert(cands.kept()[jj] == pre_c.kept()[jj]);
                                        assert(pre_c.kept()[jj] <= self.slot_dist(u, q));
                                    }
                                }
                            }
                        }
                        // nothing on the not-yet-taken side was ever visited
                        let s_gh = if child_type is LeftChild {
                            self.node(x).right_child as int
                        } else {
                            self.node(x).left_child as int
                        };
                        assert forall|f: int|
                            s_gh != 0 && #[trigger] self.in_subtree(s_gh, f) implies !pre_t[f]
                            && !searched_table@[f] by {
                            self.lemma_in_sub_bounds(s_gh, f, self.last_point as nat);
                            assert(self.wf_node(x));
                            self.lemma_in_sub_step(x, s_gh, f);
                            assert(f != x);
                            if pre_t[f] {
                                assert(self.in_subtree(x, f));
                                assert(self.cmp_child(x, q) != 0 && self.in_subtree(
                                    self.cmp_child(x, q),
                                    f,
                                ));
                                self.lemma_child_unique(x, self.cmp_child(x, q), s_gh, f);
                                let cl = self.node(x).left_child as int;
                                let cr = self.node(x).right_child as int;
                                if child_type is LeftChild {
                                    assert(self.cmp_gt(x, q));
                                    assert(self.cmp_child(x, q) == cl && s_gh == cr);
                                    assert(cl == cr && cl != 0);
                                    assert(self.tree@[cl].unwrap().child_type is LeftChild);
                                    assert(self.tree@[cr].unwrap().child_type is RightChild);
                                    assert(false);
                                } else {
                                    assert(!(child_type is RootNode));
                                    assert(!self.cmp_gt(x, q));
                                    assert(self.cmp_child(x, q) == cr && s_gh == cl);
                                    assert(cl == cr && cl != 0);
                                    assert(self.tree@[cl].unwrap().child_type is LeftChild);
                                    assert(self.tree@[cr].unwrap().child_type is RightChild);
                                    assert(false);
                                }
                            }
                        }
                    }
                    // The not-yet-taken side of this node.
                    let sub_tree = match child_type {
                        NodeType::LeftChild => node.right_child,
                        NodeType::RightChild => node.left_child,
                        NodeType::RootNode => 0,
                    };
                    // Decide whether the unexplored sibling subtree might
                    // hold a closer point: while the store is not full it
                    // always might; otherwise compare the distance from the
                    // query to this node's splitting hyperplane against the
                    // current worst retained distance.
                    let explore = if cands.len() < n {
                        true
                    } else {
                        let plane_node = node.point.split_plane(node.dimension);
                        let plane_query = query_point.split_plane(node.dimension);
                        let plane_dist = match plane_node.distance(&plane_query) {
                            Ok(pd) => pd,
                            Err(e) => {
                                proof {
                                    assert(false);
                                }
                                return Err(e);
                            },
                        };
                        let worst = match self.get_max_min(&cands) {
                            Ok(w) => w,
                            Err(e) => {
                                proof {
                                    assert(false);
                                }
                                return Err(e);
                            },
                        };
                        proof {
                            if !(plane_dist < worst) {
                                // pruning is justified: everything on the far
                                // side of the splitting plane is at least the
                                // plane distance away, which already exceeds
                                // the worst retained distance
                                let s_gh = sub_tree as int;
                                assert forall|u: int|
                                    s_gh != 0 && #[trigger] self.in_subtree(
                                        s_gh,
                                        u,
                                    ) implies self.pruned_c(cands, n as nat, u, q) by {
                                    self.lemma_in_sub_bounds(s_gh, u, self.last_point as nat);
                                    assert(self.wf_node(u));
                                    assert(self.wf_node(x));
                                    self.lemma_in_sub_step(x, s_gh, u);
                                    assert(self.axis_ok(x, u));
                                    let up = self.tree@[u].unwrap().point;
                                    DataType::lemma_plane_lower_bound(
                                        query_point,
                                        &node.point,
                                        &up,
                                        &plane_node,
                                        &plane_query,
                                        self.node(x).dimension as int,
                                    );
                                    assert(cands.kept().len() == n);
                                    assert forall|jj: int|
                                        0 <= jj < cands.kept().len() implies #[trigger] cands.kept()[jj]
                                        <= self.slot_dist(u, q) by {
                                        assert(cands.kept()[jj] <= worst as int);
                                    }
                                }
                            }
                        }
                        plane_dist < worst
                    };
                    let ghost mut dived = false;
                    if explore {
                        proof {
                            if sub_tree != 0 {
                                assert(sub_tree < self.last_point);
                            }
                        }
                        match self.go_down(query_point, sub_tree) {
                            Ok(pair) => {
                                index = pair.0;
                                child_type = pair.1;
                                proof {
                                    dived = true;
                                    let lp = self.last_point as int;
                                    let ni = index as int;
                                    let s_gh = sub_tree as int;
                                    let table = searched_table@;
                                    assert(s_gh != 0) by {
                                        if s_gh == 0 {
                                            assert(self.tree@[0] is None);
                                        }
                                    }
                                    assert(self.wf_node(x));
                                    assert(self.in_subtree(s_gh, ni));
                                    self.lemma_in_sub_step(x, s_gh, ni);
                                    self.lemma_descent_w(s_gh, ni, q);
                                    // unvisited ancestors compare toward the
                                    // new position
                                    assert forall|a: int|
                                        #![trigger self.in_subtree(a, ni)]
                                        1 <= a < lp && !table[a] && self.in_subtree(a, ni) && a
                                            != ni implies self.cmp_child(a, q) != 0
                                        && self.in_subtree(self.cmp_child(a, q), ni) by {
                                        self.lemma_anc_total(a, x, ni);
                                        if self.in_subtree(a, x) {
                                            assert(a != x);
                                            assert(!pre_t[a]);
                                            assert(self.cmp_child(a, q) != 0 && self.in_subtree(
                                                self.cmp_child(a, q),
                                                x,
                                            ));
                                            self.lemma_in_sub_trans(
                                                self.cmp_child(a, q),
                                                x,
                                                ni,
                                                lp as nat,
                                            );
                                        } else {
                                            assert(self.in_subtree(x, a));
                                            self.lemma_strict_child(x, a);
                                            let ca = choose|c: int|
                                                (c == self.node(x).left_child || c == self.node(
                                                    x,
                                                ).right_child) && c != 0
                                                    && #[trigger] self.in_subtree(c, a);
                                            self.lemma_in_sub_trans(ca, a, ni, lp as nat);
                                            self.lemma_child_unique(x, ca, s_gh, ni);
                                            assert(self.in_subtree(s_gh, a));
                                        }
                                    }
                                    // scored regions hang off the new path
                                    assert forall|f: int, a: int|
                                        #![trigger self.in_subtree(a, f), table[f]]
                                        1 <= f < lp && table[f] && 1 <= a < lp && !table[a]
                                            && self.in_subtree(a, f) && a != f implies self.cmp_child(
                                        a,
                                        q,
                                    ) != 0 && self.in_subtree(self.cmp_child(a, q), f)
                                        && self.in_subtree(a, ni) by {
                                        assert(!pre_t[a]);
                                        if f == x {
                                            assert(self.in_subtree(a, x));
                                            assert(self.cmp_child(a, q) != 0 && self.in_subtree(
                                                self.cmp_child(a, q),
                                                x,
                                            ));
                                            self.lemma_in_sub_trans(a, x, ni, lp as nat);
                                        } else {
                                            assert(pre_t[f]);
                                            assert(self.in_subtree(a, x));
                                            self.lemma_in_sub_trans(a, x, ni, lp as nat);
                                        }
                                    }
                                    // coverage at the new position
                                    assert forall|u: int|
                                        1 <= u < lp implies #[trigger] self.search_covered(
                                        table,
                                        ni,
                                        cands,
                                        n as nat,
                                        q,
                                        u,
                                    ) by {
                                        if !table[u] {
                                            assert(!pre_t[u] && u != x);
                                            assert(self.search_covered(
                                                pre_t,
                                                x,
                                                pre_c,
                                                n as nat,
                                                q,
                                                u,
                                            ));
                                            if self.pruned_c(pre_c, n as nat, u, q) {
                                                assert(self.pruned_c(cands, n as nat, u, q));
                                            } else if self.pending_witness(pre_t, x, u) {
                                                let b = choose|b: int| #[trigger] self.pw_at(
                                                    pre_t,
                                                    x,
                                                    u,
                                                    b,
                                                );
                                                if b == x {
                                                    self.lemma_strict_child(x, u);
                                                    let cu = choose|c: int|
                                                        (c == self.node(x).left_child || c
                                                            == self.node(x).right_child) && c != 0
                                                            && #[trigger] self.in_subtree(c, u);
                                                    if cu != s_gh {
                                                        assert(pre_t[cu]);
                                                        assert(false);
                                                    } else {
                                                        self.lemma_lca_witness(s_gh, u, ni);
                                                        let b2 = choose|b2: int|
                                                            {
                                                                &&& #[trigger] self.in_subtree(
                                                                    s_gh,
                                                                    b2,
                                                                )
                                                                &&& self.in_subtree(b2, u)
                                                                &&& self.in_subtree(b2, ni)
                                                                &&& (b2 == ni || (forall|c: int|
                                                                    (c == self.node(b2).left_child
                                                                        || c == self.node(
                                                                        b2,
                                                                    ).right_child) && c != 0
                                                                        && #[trigger] self.in_subtree(
                                                                        c,
                                                                        ni,
                                                                    ) ==> !self.in_subtree(c, u)))
                                                            };
                                                        self.lemma_in_sub_bounds(
                                                            s_gh,
                                                            b2,
                                                            lp as nat,
                                                        );
                                                        assert(!table[b2]);
                                                        assert(self.pw_at(table, ni, u, b2)) by {
                                                            if b2 == ni {
                                                                assert forall|c: int|
                                                                    #![trigger self.in_subtree(c, u)]
                                                                    (c == self.node(
                                                                        b2,
                                                                    ).left_child || c == self.node(
                                                                        b2,
                                                                    ).right_child) && c != 0
                                                                        && table[c] implies !self.in_subtree(
                                                                    c,
                                                                    u,
                                                                ) by {
                                                                    assert(self.wf_node(b2));
                                                                    assert(self.in_sub(
                                                                        c,
                                                                        c,
                                                                        (lp - 1) as nat,
                                                                    ));
                                                                    assert(self.in_sub(
                                                                        b2,
                                                                        c,
                                                                        lp as nat,
                                                                    ));
                                                                    self.lemma_in_sub_trans(
                                                                        s_gh,
                                                                        b2,
                                                                        c,
                                                                        lp as nat,
                                                                    );
                                                                    assert(self.in_subtree(
                                                                        s_gh,
                                                                        c,
                                                                    ));
                                                                    assert(false);
                                                                }
                                                            }
                                                        }
                                                        assert(self.pending_witness(
                                                            table,
                                                            ni,
                                                            u,
                                                        ));
                                                    }
                                                } else {
                                                    assert(!table[b]);
                                                    self.lemma_in_sub_trans(b, x, ni, lp as nat);
                                                    assert forall|c: int|
                                                        #![trigger self.in_subtree(c, u)]
                                                        (c == self.node(b).left_child || c
                                                            == self.node(b).right_child) && c != 0
                                                            && self.in_subtree(
                                                            c,
                                                            ni,
                                                        ) implies !self.in_subtree(c, u) by {
                                                        self.lemma_strict_child(b, x);
                                                        let cx = choose|c2: int|
                                                            (c2 == self.node(b).left_child || c2
                                                                == self.node(b).right_child) && c2
                                                                != 0 && #[trigger] self.in_subtree(
                                                                c2,
                                                                x,
                                                            );
                                                        self.lemma_in_sub_trans(
                                                            cx,
                                                            x,
                                                            ni,
                                                            lp as nat,
                                                        );
                                                        self.lemma_child_unique(b, c, cx, ni);
                                                        assert(self.in_subtree(c, x));
                                                    }
                                                    assert(self.pw_at(table, ni, u, b));
                                                    assert(self.pending_witness(table, ni, u));
                                                }
                                            }
                                        }
                                    }
                                }
                            },
                            Err(_) => {
                                // the sibling slot is absent: nothing to
                                // explore, the next step walks upward
                            },
                        }
                    }
                    proof {
                        if !dived {
                            let lp = self.last_point as int;
                            let table = searched_table@;
                            let s_gh = sub_tree as int;
                            if explore {
                                // the descent into the side failed: the slot
                                // is absent
                                assert(s_gh == 0) by {
                                    if s_gh != 0 {
                                        assert(self.wf_node(x));
                                        assert(self.tree@[s_gh] is Some);
                                    }
                                }
                            }
                            // coverage at the unchanged (now visited) position
                            assert forall|u: int|
                                1 <= u < lp implies #[trigger] self.search_covered(
                                table,
                                x,
                                cands,
                                n as nat,
                                q,
                                u,
                            ) by {
                                if !table[u] {
                                    assert(!pre_t[u] && u != x);
                                    assert(self.search_covered(pre_t, x, pre_c, n as nat, q, u));
                                    if self.pruned_c(pre_c, n as nat, u, q) {
                                        assert(self.pruned_c(cands, n as nat, u, q));
                                    } else if self.pending_witness(pre_t, x, u) {
                                        let b = choose|b: int| #[trigger] self.pw_at(
                                            pre_t,
                                            x,
                                            u,
                                            b,
                                        );
                                        if b == x {
                                            self.lemma_strict_child(x, u);
                                            let cu = choose|c: int|
                                                (c == self.node(x).left_child || c == self.node(
                                                    x,
                                                ).right_child) && c != 0
                                                    && #[trigger] self.in_subtree(c, u);
                                            if cu != s_gh {
                                                assert(pre_t[cu]);
                                                assert(false);
                                            } else {
                                                assert(!explore);
                                                assert(self.in_subtree(s_gh, u));
                                                assert(self.pruned_c(cands, n as nat, u, q));
                                            }
                                        } else {
                                            assert(!table[b]);
                                            assert(self.pw_at(table, x, u, b));
                                            assert(self.pending_witness(table, x, u));
                                        }
                                    }
                                }
                            }
                            // ancestor facts carry over unchanged
                            assert forall|a: int|
                                #![trigger self.in_subtree(a, x)]
                                1 <= a < lp && !table[a] && self.in_subtree(a, x) && a
                                    != x implies self.cmp_child(a, q) != 0 && self.in_subtree(
                                self.cmp_child(a, q),
                                x,
                            ) by {
                                assert(!pre_t[a]);
                            }
                            assert forall|f: int, a: int|
                                #![trigger self.in_subtree(a, f), table[f]]
                                1 <= f < lp && table[f] && 1 <= a < lp && !table[a]
                                    && self.in_subtree(a, f) && a != f implies self.cmp_child(
                                a,
                                q,
                            ) != 0 && self.in_subtree(self.cmp_child(a, q), f) && self.in_subtree(
                                a,
                                x,
                            ) by {
                                assert(!pre_t[a]);
                                if f == x {
                                    assert(self.in_subtree(a, x));
                                    assert(self.cmp_child(a, q) != 0 && self.in_subtree(
                                        self.cmp_child(a, q),
                                        x,
                                    ));
                                } else {
                                    assert(pre_t[f]);
                                }
                            }
                        }
                    }
                }
            } else {
                proof {
                    assert(false);
                }
            }
        }
        proof {
            broadcast use vstd::seq_lib::group_to_multiset_ensures;
            broadcast use vstd::multiset::group_multiset_axioms;

            let q = *query_point;
            let lp = self.last_point as int;
            let table = searched_table@;
            // the kept slots are pairwise distinct occupied slots, so the
            // kept distances cannot count any stored point twice
            assert forall|x: int|
                cands.slots().to_multiset().contains(x) implies cands.slots().to_multiset().count(
                x,
            ) == 1 by {}
            cands.slots().lemma_multiset_has_no_duplicates_conv();
            let uni = Seq::new((self.last_point - 1) as nat, |i: int| i + 1);
            assert(uni.no_duplicates()) by {
                assert forall|i: int, j: int|
                    0 <= i < uni.len() && 0 <= j < uni.len() && i != j implies uni[i] != uni[j] by {
                    assert(uni[i] == i + 1 && uni[j] == j + 1);
                }
            }
            assert forall|i: int|
                0 <= i < cands.slots().len() implies uni.contains(#[trigger] cands.slots()[i]) by {
                let v = cands.slots()[i];
                assert(1 <= v < self.last_point);
                assert(uni[v - 1] == v);
            }
            self.lemma_dists_at_subset(cands.slots(), uni, *query_point);
            assert(self.dists_at(cands.slots(), *query_point) =~= cands.kept()) by {
                assert forall|i: int|
                    0 <= i < cands.kept().len() implies self.dists_at(
                    cands.slots(),
                    *query_point,
                )[i] == cands.kept()[i] by {
                    assert(1 <= cands.slots()[i] < self.last_point);
                }
            }
            assert(self.dists_at(uni, *query_point) =~= self.all_dists(*query_point)) by {
                assert forall|i: int|
                    0 <= i < uni.len() implies self.dists_at(uni, *query_point)[i]
                    == self.all_dists(*query_point)[i] by {
                    assert(uni[i] == i + 1);
                    assert(self.points()[i] == self.tree@[i + 1].unwrap().point);
                }
            }
            // at exit no pending stop remains: everything unscored was pruned
            assert forall|u: int|
                1 <= u < lp && !table[u] implies self.pruned_c(cands, n as nat, u, q) by {
                assert(self.search_covered(table, 0, cands, n as nat, q, u));
                if self.pending_witness(table, 0, u) {
                    let b = choose|b: int| #[trigger] self.pw_at(table, 0, u, b);
                    assert(self.in_subtree(b, 0));
                    self.lemma_in_sub_bounds(b, 0, self.last_point as nat);
                    assert(false);
                }
            }
            let seen = self.dists_at(flag_list, q);
            vstd::seq_lib::to_multiset_len(self.dists_at(uni, q));
            vstd::seq_lib::to_multiset_len(seen);
            vstd::seq_lib::to_multiset_len(cands.kept());
            if cands.kept().len() < n {
                // the store never filled, so nothing was pruned: every
                // stored point was scored, and the scored list is exactly
                // the slot universe
                assert forall|u: int| 1 <= u < lp implies table[u] by {
                    if !table[u] {
                        assert(self.pruned_c(cands, n as nat, u, q));
                    }
                }
                flag_list.lemma_multiset_has_no_duplicates();
                uni.lemma_multiset_has_no_duplicates();
                assert forall|v: int|
                    flag_list.to_multiset().count(v) == #[trigger] uni.to_multiset().count(v) by {
                    if 1 <= v < lp {
                        assert(uni[v - 1] == v);
                        assert(uni.contains(v));
                        assert(table[v]);
                        assert(flag_list.contains(v));
                    } else {
                        if flag_list.to_multiset().count(v) > 0 {
                            assert(flag_list.contains(v));
                            let k = choose|k: int|
                                0 <= k < flag_list.len() && flag_list[k] == v;
                            assert(1 <= flag_list[k] < lp);
                        }
                        if uni.to_multiset().count(v) > 0 {
                            assert(uni.contains(v));
                            let k = choose|k: int| 0 <= k < uni.len() && uni[k] == v;
                            assert(uni[k] == k + 1);
                        }
                    }
                }
                assert(flag_list.to_multiset() =~= uni.to_multiset());
                vstd::seq_lib::to_multiset_len(flag_list);
                vstd::seq_lib::to_multiset_len(uni);
                assert(flag_list.len() == lp - 1);
                assert forall|v: int|
                    seen.to_multiset().count(v) == #[trigger] self.dists_at(
                        uni,
                        q,
                    ).to_multiset().count(v) by {
                    assert forall|i: int|
                        0 <= i < uni.len() && self.slot_dist(#[trigger] uni[i], q)
                            == v implies flag_list.contains(uni[i]) by {
                        assert(table[uni[i]]);
                    }
                    self.lemma_dists_count(uni, flag_list, v, q);
                    assert forall|i: int|
                        0 <= i < flag_list.len() && self.slot_dist(#[trigger] flag_list[i], q)
                            == v implies uni.contains(flag_list[i]) by {
                        assert(uni[flag_list[i] - 1] == flag_list[i]);
                    }
                    self.lemma_dists_count(flag_list, uni, v, q);
                }
                assert(seen.to_multiset() =~= self.dists_at(uni, q).to_multiset());
                assert(seen.len() == self.dists_at(uni, q).len());
                assert(is_topk(cands.kept(), self.dists_at(uni, q), n as nat));
            } else {
                assert(cands.kept().len() == n);
                // the kept distances are a sub-multiset of all distances, so
                // at least n points are stored
                let kd = cands.kept().to_multiset();
                let ad = self.dists_at(uni, q).to_multiset();
                assert(ad =~= kd.add(ad.sub(kd)));
                vstd::multiset::axiom_len_add(kd, ad.sub(kd));
                assert(ad.len() >= kd.len());
                assert(lp - 1 >= n);
                assert forall|v: int|
                    #[trigger] ad.count(v) > kd.count(v) implies (forall|y: int|
                    #[trigger] kd.count(y) > 0 ==> y <= v) by {
                    if exists|w: int| 1 <= w < lp && !table[w] && self.slot_dist(w, q) == v {
                        let w = choose|w: int|
                            1 <= w < lp && !table[w] && self.slot_dist(w, q) == v;
                        assert(self.pruned_c(cands, n as nat, w, q));
                        assert forall|y: int| #[trigger] kd.count(y) > 0 implies y <= v by {
                            assert(cands.kept().contains(y));
                            let jy = choose|jy: int|
                                0 <= jy < cands.kept().len() && cands.kept()[jy] == y;
                            assert(cands.kept()[jy] <= self.slot_dist(w, q));
                        }
                    } else {
                        assert forall|i: int|
                            0 <= i < uni.len() && self.slot_dist(#[trigger] uni[i], q)
                                == v implies flag_list.contains(uni[i]) by {
                            assert(uni[i] == i + 1);
                            assert(1 <= uni[i] < lp);
                            if !table[uni[i]] {
                                assert(1 <= uni[i] < lp && !table[uni[i]] && self.slot_dist(
                                    uni[i],
                                    q,
                                ) == v);
                                assert(false);
                            }
                            assert(table[uni[i]]);
                        }
                        self.lemma_dists_count(uni, flag_list, v, q);
                        assert(seen.to_multiset().count(v) > kd.count(v));
                    }
                }
                assert(is_topk(cands.kept(), self.dists_at(uni, q), n as nat));
            }
            assert(is_topk(cands.kept(), self.all_dists(q), n as nat));
            assert(self.all_dists(q).len() == self.size());
        }
        let result = match self.assemble(cands, query_point) {
            Ok(v) => v,
            Err(e) => {
                proof {
                    assert(false);
                }
                return Err(e);
            },
        };
        proof {
            assert(dists_of(result@).len() == result@.len());
            assert(is_topk(dists_of(result@), self.all_dists(*query_point), n as nat));
        }
        Ok(result)
    }

    /// Find the single closest stored point to the query and its distance.
    ///
    /// Fails with `DimensionError` exactly when the query's dimensionality
    /// differs from the tree's, else with `EmptyTree` exactly when no point
    /// was inserted.
    pub fn find_closest(&self, query_point: &DataType) -> (r: Result<(DataType, u128), KdError>)
        requires
            self.wf(),
        ensures
            match r {
                Ok(pair) => {
                    &&& query_point.spec_dims() == self.dims()
                    &&& self.size() > 0
                    &&& exists|j: int|
                        {
                            &&& 0 <= j < self.points().len()
                            &&& same_point(&pair.0, &self.points()[j])
                            &&& pair.1 as int == self.points()[j].spec_distance(query_point)
                        }
                    &&& forall|j: int|
                        0 <= j < self.points().len() ==> pair.1 as int
                            <= #[trigger] self.points()[j].spec_distance(query_point)
                },
                Err(e) => {
                    if query_point.spec_dims() != self.dims() {
                        e == KdError::DimensionError
                    } else {
                        e == KdError::EmptyTree && self.size() == 0
                    }
                },
            },
    {
        let mut v = match self.find_n_closest(query_point, 1) {
            Ok(v) => v,
            Err(e) => {
                return Err(e);
            },
        };
        let ghost pre_v = v@;
        match v.pop() {
            Some(closest) => {
                proof {
                    assert(closest == pre_v[0]);
                    // the single kept distance is the minimum of them all
                    crate::topk::lemma_top1_is_min(dists_of(pre_v), self.all_dists(*query_point));
                    assert(dists_of(pre_v)[0] == closest.distance as int);
                    assert forall|j: int|
                        0 <= j < self.points().len() implies closest.distance as int
                        <= #[trigger] self.points()[j].spec_distance(query_point) by {
                        assert(self.all_dists(*query_point)[j] == self.points()[j].spec_distance(
                            query_point,
                        ));
                    }
                    assert(exists|j: int|
                        {
                            &&& 0 <= j < self.points().len()
                            &&& same_point(&(pre_v[0]).point, &self.points()[j])
                            &&& pre_v[0].distance as int == self.points()[j].spec_distance(
                                query_point,
                            )
                        });
                }
                Ok((closest.point, closest.distance))
            },
            None => {
                proof {
                    assert(false);
                }
                Err(KdError::BinaryHeapError)
            },
        }
    }
}

/// The insertion-order invariance law: what a correct bounded top-`n`
/// search returns depends only on the set of stored points, never on the
/// order they were inserted or the shape the tree took.  Any two trees
/// holding the same points, queried with the same point and bound, have
/// top-`n` answers with identical distance multisets.
pub proof fn lemma_insertion_order_invariance<DataType: Point>(
    t1: KdTree<DataType>,
    t2: KdTree<DataType>,
    query: DataType,
    n: nat,
    k1: Seq<int>,
    k2: Seq<int>,
)
    requires
        t1.points().to_multiset() == t2.points().to_multiset(),
        is_topk(k1, t1.all_dists(query), n),
        is_topk(k2, t2.all_dists(query), n),
    ensures
        k1.to_multiset() == k2.to_multiset(),
{
    lemma_map_values_multiset(
        t1.points(),
        t2.points(),
        |p: DataType| p.spec_distance(&query),
    );
    vstd::seq_lib::to_multiset_len(t1.all_dists(query));
    vstd::seq_lib::to_multiset_len(t2.all_dists(query));
    assert(is_topk(k2, t1.all_dists(query), n)) by {
        assert(t1.all_dists(query).len() == t2.all_dists(query).len());
    }
    lemma_topk_unique(k1, k2, t1.all_dists(query), n);
}

} // verus!
