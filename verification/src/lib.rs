//! An in-memory spatial index over points in a fixed-dimensional space,
//! supporting exact nearest-neighbor and exact k-nearest-neighbor queries.
//!
//! The core is an arena-based k-d tree (`kd_tree`): insertion by descending
//! comparisons, and an iterative, stack-free nearest/k-nearest search driven
//! by parent back-links, with split-plane pruning and backtracking.  A
//! bounded top-k candidate store (`topk`) is layered on top for the
//! k-nearest variant, together with the specification of what "the k
//! nearest" means and the laws that make any two correct answers agree.
//!
//! Points are polymorphic over the `Point` capability; an implementation for
//! integer coordinate vectors (`Vec<i32>`, with squared Euclidean distance,
//! which preserves nearest-neighbor order exactly) is built in.

use vstd::prelude::*;

pub mod kd_tree;
pub mod topk;

verus! {

use crate::kd_tree::{KdError, Point};

/// Square of an integer.
pub open spec fn sq(x: int) -> int {
    x * x
}

/// Sum of squared coordinate differences over the first `k` axes.
pub open spec fn sq_dist_prefix(a: Seq<i32>, b: Seq<i32>, k: int) -> int
    decreases k,
{
    if k <= 0 {
        0
    } else {
        sq_dist_prefix(a, b, k - 1) + sq(a[k - 1] - b[k - 1])
    }
}

/// Squared differences are non-negative, so the sum only grows with `k`.
proof fn lemma_sq_dist_nonneg(a: Seq<i32>, b: Seq<i32>, k: int)
    ensures
        0 <= sq_dist_prefix(a, b, k),
    decreases k,
{
    if k > 0 {
        lemma_sq_dist_nonneg(a, b, k - 1);
        assert(0 <= sq(a[k - 1] - b[k - 1])) by (nonlinear_arith);
    }
}

/// Each single squared coordinate difference lower-bounds the whole sum.
proof fn lemma_sq_dist_term_bound(a: Seq<i32>, b: Seq<i32>, k: int, j: int)
    requires
        0 <= j < k,
    ensures
        sq(a[j] - b[j]) <= sq_dist_prefix(a, b, k),
    decreases k,
{
    if j == k - 1 {
        lemma_sq_dist_nonneg(a, b, k - 1);
    } else {
        lemma_sq_dist_term_bound(a, b, k - 1, j);
        assert(0 <= sq(a[k - 1] - b[k - 1])) by (nonlinear_arith);
    }
}

/// If two vectors agree everywhere except possibly at axis `dim`, their
/// squared distance is the single term at `dim`.
proof fn lemma_sq_dist_single(a: Seq<i32>, b: Seq<i32>, k: int, dim: int)
    requires
        forall|j: int| 0 <= j < k && j != dim ==> a[j] == b[j],
    ensures
        sq_dist_prefix(a, b, k) == if 0 <= dim < k {
            sq(a[dim] - b[dim])
        } else {
            0
        },
    decreases k,
{
    if k > 0 {
        lemma_sq_dist_single(a, b, k - 1, dim);
        if k - 1 != dim {
            assert(sq(a[k - 1] - b[k - 1]) == 0) by (nonlinear_arith)
                requires
                    a[k - 1] == b[k - 1],
            ;
        }
    }
}

impl Point for Vec<i32> {
    open spec fn spec_dims(&self) -> nat {
        self@.len()
    }

    open spec fn spec_axis(&self, dim: int) -> int {
        self@[dim] as int
    }

    open spec fn spec_distance(&self, other: &Self) -> int {
        sq_dist_prefix(self@, other@, self@.len() as int)
    }

    fn dimensions(&self) -> (r: usize) {
        self.len()
    }

    fn distance(&self, other: &Self) -> (r: Result<u128, KdError>) {
        if self.len() != other.len() {
            return Err(KdError::DimensionError);
        }
        let mut total: u128 = 0;
        let mut i: usize = 0;
        while i < self.len()
            invariant
                self@.len() == other@.len(),
                i <= self@.len(),
                total as int == sq_dist_prefix(self@, other@, i as int),
                total as int <= (i as int) * 0xFFFF_FFFE_0000_0001,
            decreases self@.len() - i,
        {
            let d: i64 = (self[i] as i64) - (other[i] as i64);
            let m: u64 = if d < 0 {
                (-d) as u64
            } else {
                d as u64
            };
            proof {
                assert((m as int) * (m as int) == sq(self@[i as int] - other@[i as int]))
                    by (nonlinear_arith)
                    requires
                        m as int == if d < 0 {
                            -(d as int)
                        } else {
                            d as int
                        },
                        d as int == self@[i as int] - other@[i as int],
                ;
                assert((m as int) * (m as int) <= 0xFFFF_FFFE_0000_0001) by (nonlinear_arith)
                    requires
                        0 <= m as int <= 0xFFFF_FFFF,
                ;
            }
            let sqv: u128 = (m as u128) * (m as u128);
            proof {
                assert((total as int) + (m as int) * (m as int) <= ((i + 1) as int)
                    * 0xFFFF_FFFE_0000_0001) by (nonlinear_arith)
                    requires
                        total as int <= (i as int) * 0xFFFF_FFFE_0000_0001,
                        (m as int) * (m as int) <= 0xFFFF_FFFE_0000_0001,
                        0 <= i,
                ;
                assert(((i + 1) as int) * 0xFFFF_FFFE_0000_0001 <= 0xFFFF_FFFF_FFFF_FFFF
                    * 0xFFFF_FFFE_0000_0001) by (nonlinear_arith)
                    requires
                        0 <= i,
                        (i + 1) as int <= 0xFFFF_FFFF_FFFF_FFFF,
                ;
            }
            total = total + sqv;
            i = i + 1;
        }
        Ok(total)
    }

    fn greater(&self, other: &Self, cur_dimension: usize) -> (r: bool) {
        self[cur_dimension] > other[cur_dimension]
    }

    fn split_plane(&self, cur_dimension: usize) -> (r: Self) {
        let mut plane: Vec<i32> = Vec::new();
        let mut i: usize = 0;
        while i < self.len()
            invariant
                cur_dimension < self@.len(),
                i <= self@.len(),
                plane@.len() == i,
                forall|j: int|
                    0 <= j < i ==> plane@[j] == (if j == cur_dimension {
                        self@[j]
                    } else {
                        0i32
                    }),
            decreases self@.len() - i,
        {
            if i == cur_dimension {
                plane.push(self[i]);
            } else {
                plane.push(0);
            }
            i = i + 1;
        }
        plane
    }

    fn clone_point(&self) -> (r: Self) {
        let mut copy: Vec<i32> = Vec::new();
        let mut i: usize = 0;
        while i < self.len()
            invariant
                i <= self@.len(),
                copy@.len() == i,
                forall|j: int| 0 <= j < i ==> copy@[j] == self@[j],
            decreases self@.len() - i,
        {
            copy.push(self[i]);
            i = i + 1;
        }
        copy
    }

    proof fn lemma_plane_lower_bound(
        query: &Self,
        node: &Self,
        x: &Self,
        plane_node: &Self,
        plane_query: &Self,
        dim: int,
    ) {
        let d = node.spec_dims() as int;
        assert forall|j: int| 0 <= j < d && j != dim implies plane_node@[j] == plane_query@[j] by {
            assert(plane_node.spec_axis(j) == 0);
            assert(plane_query.spec_axis(j) == 0);
        }
        lemma_sq_dist_single(plane_node@, plane_query@, d, dim);
        assert(plane_node.spec_axis(dim) == node.spec_axis(dim));
        assert(plane_query.spec_axis(dim) == query.spec_axis(dim));
        assert(plane_node@[dim] - plane_query@[dim] == node@[dim] - query@[dim]);
        lemma_sq_dist_term_bound(x@, query@, d, dim);
        assert(sq(node@[dim] - query@[dim]) <= sq(x@[dim] - query@[dim])) by (nonlinear_arith)
            requires
                (node@[dim] as int > query@[dim] as int) != (node@[dim] as int > x@[dim] as int),
        ;
    }
}

} // verus!
