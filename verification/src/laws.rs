//! Proved properties of the index: determinism of construction, behaviour
//! of the empty index and of a zero query point, membership of every answer
//! in the index, the exact-match guarantee, and the optimality of the
//! search whenever its pruning test never skips a branch.

use crate::dbmodel::{lemma_wf_tree_points, next_axis, points_of, wf_tree, Node};
use crate::gangdb::{is_build, nn_spec};
use crate::sim::{
    gap_gt_sim, lemma_nothing_beats_one, lemma_sim_gt_asym, lemma_sim_le_trans, lemma_sim_self,
    lemma_tied_with_one_is_one, norm2, sim_gt, sim_is_one,
};
use crate::sort::sort_by_axis;
use vstd::prelude::*;

verus! {

/// Two trees have the same shape when they place equal points at exactly
/// the same positions.
pub open spec fn same_shape(t1: Option<Box<Node>>, t2: Option<Box<Node>>) -> bool
    decreases t1,
{
    match t1 {
        None => t2 is None,
        Some(n1) => match t2 {
            None => false,
            Some(n2) => {
                &&& n1.vector@ == n2.vector@
                &&& same_shape(n1.left, n2.left)
                &&& same_shape(n1.right, n2.right)
            },
        },
    }
}

/// Determinism of construction: two trees built from the same batch, in
/// the same order, are structurally identical.
pub proof fn lemma_build_deterministic(
    t1: Option<Box<Node>>,
    t2: Option<Box<Node>>,
    s: Seq<Seq<i64>>,
    axis: nat,
    dim: nat,
)
    requires
        is_build(t1, s, axis, dim),
        is_build(t2, s, axis, dim),
    ensures
        same_shape(t1, t2),
    decreases t1,
{
    match t1 {
        None => {},
        Some(n1) => {
            match t2 {
                None => {
                    assert(false);
                },
                Some(n2) => {
                    let sorted = sort_by_axis(s, axis as int);
                    let m = s.len() as int / 2;
                    lemma_build_deterministic(
                        n1.left,
                        n2.left,
                        sorted.take(m),
                        next_axis(axis, dim),
                        dim,
                    );
                    lemma_build_deterministic(
                        n1.right,
                        n2.right,
                        sorted.skip(m + 1),
                        next_axis(axis, dim),
                        dim,
                    );
                },
            }
        },
    }
}

/// An index built from the empty batch answers every query, at any depth,
/// with no result.
pub proof fn lemma_empty_index_query(
    t: Option<Box<Node>>,
    s: Seq<Seq<i64>>,
    q: Seq<i64>,
    axis: nat,
    dim: nat,
    qaxis: nat,
    qdim: nat,
)
    requires
        is_build(t, s, axis, dim),
        s.len() == 0,
    ensures
        nn_spec(t, q, qaxis, qdim) is None,
{
}

/// The search produces a result exactly when the index is not empty; in
/// particular it always produces one on a non-empty index, whatever the
/// query — including a zero-magnitude query point.
pub proof fn lemma_query_some(t: Option<Box<Node>>, q: Seq<i64>, axis: nat, dim: nat)
    ensures
        (nn_spec(t, q, axis, dim) is Some) <==> (t is Some),
{
    match t {
        None => {},
        Some(n) => {},
    }
}

/// Against a zero-magnitude query point every similarity is 0, so no point
/// is strictly more similar than any other and no comparison divides by a
/// zero magnitude.
pub proof fn lemma_zero_query_ties(a: Seq<i64>, b: Seq<i64>, q: Seq<i64>)
    requires
        norm2(q) == 0,
    ensures
        !sim_gt(a, b, q),
        !sim_gt(b, a, q),
{
}

/// No point is strictly more similar to the query than itself.
pub proof fn lemma_sim_gt_irrefl(x: Seq<i64>, q: Seq<i64>)
    ensures
        !sim_gt(x, x, q),
{
}

/// Every answer the search returns is a point the index holds.
pub proof fn lemma_result_in_tree(t: Option<Box<Node>>, q: Seq<i64>, axis: nat, dim: nat)
    requires
        t is Some,
    ensures
        nn_spec(t, q, axis, dim) is Some,
        points_of(t).contains(nn_spec(t, q, axis, dim).unwrap()),
    decreases t,
{
    broadcast use vstd::multiset::group_multiset_axioms;

    let n = t.unwrap();
    let a = axis as int;
    let nv = n.vector@;
    let go_left = q[a] < nv[a];
    let primary = if go_left {
        n.left
    } else {
        n.right
    };
    let secondary = if go_left {
        n.right
    } else {
        n.left
    };
    let sub = nn_spec(primary, q, next_axis(axis, dim), dim);
    let best = if sub is None || sim_gt(nv, sub.unwrap(), q) {
        nv
    } else {
        sub.unwrap()
    };
    assert(points_of(t) == points_of(n.left).insert(nv).add(points_of(n.right)));
    assert(points_of(t).contains(nv));
    if !(sub is None || sim_gt(nv, sub.unwrap(), q)) {
        lemma_query_some(primary, q, next_axis(axis, dim), dim);
        lemma_result_in_tree(primary, q, next_axis(axis, dim), dim);
        assert(points_of(t).contains(best));
    }
    assert(points_of(t).contains(best));
    let gap = if q[a] >= nv[a] {
        (q[a] - nv[a]) as int
    } else {
        (nv[a] - q[a]) as int
    };
    if gap_gt_sim(gap, best, q) {
        let sub2 = nn_spec(secondary, q, next_axis(axis, dim), dim);
        if sub2 is Some && sim_gt(sub2.unwrap(), best, q) {
            lemma_query_some(secondary, q, next_axis(axis, dim), dim);
            lemma_result_in_tree(secondary, q, next_axis(axis, dim), dim);
            assert(points_of(t).contains(sub2.unwrap()));
        }
    }
}

/// Whether the search's pruning test holds at every node of the tree, so
/// that the search visits the whole tree for this query.
pub open spec fn explores_all(t: Option<Box<Node>>, q: Seq<i64>, axis: nat, dim: nat) -> bool
    decreases t,
{
    match t {
        None => true,
        Some(n) => {
            let a = axis as int;
            let go_left = q[a] < n.vector@[a];
            let primary = if go_left {
                n.left
            } else {
                n.right
            };
            let secondary = if go_left {
                n.right
            } else {
                n.left
            };
            let sub = nn_spec(primary, q, next_axis(axis, dim), dim);
            let best = if sub is None || sim_gt(n.vector@, sub.unwrap(), q) {
                n.vector@
            } else {
                sub.unwrap()
            };
            let gap = if q[a] >= n.vector@[a] {
                (q[a] - n.vector@[a]) as int
            } else {
                (n.vector@[a] - q[a]) as int
            };
            &&& gap_gt_sim(gap, best, q)
            &&& explores_all(primary, q, next_axis(axis, dim), dim)
            &&& explores_all(secondary, q, next_axis(axis, dim), dim)
        },
    }
}

/// Brute-force agreement: whenever the pruning test never skips a branch
/// for this query, the search's answer is a point of the index at least as
/// similar to the query as every point the index holds.
pub proof fn lemma_query_optimal(t: Option<Box<Node>>, q: Seq<i64>, axis: nat, dim: nat)
    requires
        t is Some,
        explores_all(t, q, axis, dim),
    ensures
        nn_spec(t, q, axis, dim) is Some,
        points_of(t).contains(nn_spec(t, q, axis, dim).unwrap()),
        forall|p: Seq<i64>|
            points_of(t).contains(p) ==> !sim_gt(p, nn_spec(t, q, axis, dim).unwrap(), q),
    decreases t,
{
    broadcast use vstd::multiset::group_multiset_axioms;

    let n = t.unwrap();
    let a = axis as int;
    let nv = n.vector@;
    let go_left = q[a] < nv[a];
    let primary = if go_left {
        n.left
    } else {
        n.right
    };
    let secondary = if go_left {
        n.right
    } else {
        n.left
    };
    let nx = next_axis(axis, dim);
    let sub = nn_spec(primary, q, nx, dim);
    let best = if sub is None || sim_gt(nv, sub.unwrap(), q) {
        nv
    } else {
        sub.unwrap()
    };
    lemma_result_in_tree(t, q, axis, dim);
    lemma_query_some(primary, q, nx, dim);
    lemma_query_some(secondary, q, nx, dim);
    // the intermediate candidate is at least as similar as the node's point
    // and as everything in the near branch
    assert(!sim_gt(nv, best, q) && forall|p: Seq<i64>|
        points_of(primary).contains(p) ==> !sim_gt(p, best, q)) by {
        lemma_sim_gt_irrefl(nv, q);
        if primary is Some {
            lemma_query_optimal(primary, q, nx, dim);
            let rp = sub.unwrap();
            if sim_gt(nv, rp, q) {
                lemma_sim_gt_asym(nv, rp, q);
                assert forall|p: Seq<i64>| points_of(primary).contains(p) implies !sim_gt(
                    p,
                    best,
                    q,
                ) by {
                    lemma_sim_le_trans(p, rp, nv, q);
                }
            } else {
                assert(best == rp);
            }
        }
    }
    let gap = if q[a] >= nv[a] {
        (q[a] - nv[a]) as int
    } else {
        (nv[a] - q[a]) as int
    };
    assert(gap_gt_sim(gap, best, q));
    let sub2 = nn_spec(secondary, q, nx, dim);
    let r = nn_spec(t, q, axis, dim).unwrap();
    // the far branch is explored; the final answer dominates it as well
    assert(!sim_gt(nv, r, q) && forall|p: Seq<i64>|
        (points_of(primary).contains(p) || points_of(secondary).contains(p)) ==> !sim_gt(
            p,
            r,
            q,
        )) by {
        if sub2 is Some && sim_gt(sub2.unwrap(), best, q) {
            let rs = sub2.unwrap();
            assert(r == rs);
            lemma_query_optimal(secondary, q, nx, dim);
            lemma_sim_gt_asym(rs, best, q);
            lemma_sim_le_trans(nv, best, rs, q);
            assert forall|p: Seq<i64>|
                points_of(primary).contains(p) || points_of(secondary).contains(
                    p,
                ) implies !sim_gt(p, r, q) by {
                if points_of(primary).contains(p) {
                    lemma_sim_le_trans(p, best, rs, q);
                }
            }
        } else {
            assert(r == best);
            if secondary is Some {
                lemma_query_optimal(secondary, q, nx, dim);
                let rs = sub2.unwrap();
                assert(!sim_gt(rs, best, q));
                assert forall|p: Seq<i64>|
                    points_of(primary).contains(p) || points_of(secondary).contains(
                        p,
                    ) implies !sim_gt(p, r, q) by {
                    if points_of(secondary).contains(p) {
                        lemma_sim_le_trans(p, rs, best, q);
                    }
                }
            }
        }
    }
    assert(points_of(t) == points_of(n.left).insert(nv).add(points_of(n.right)));
    assert forall|p: Seq<i64>| points_of(t).contains(p) implies !sim_gt(p, r, q) by {
        assert(p == nv || points_of(primary).contains(p) || points_of(secondary).contains(p));
    }
}

/// Exact-match guarantee: querying with a point the index holds returns an
/// answer of similarity exactly 1 to it, provided the query point has a
/// nonzero magnitude and no distinct point of the index shares any
/// coordinate with it (a shared coordinate on a split axis can send the
/// exact match into a branch the pruning test then skips).
pub proof fn lemma_exact_match(t: Option<Box<Node>>, q: Seq<i64>, axis: nat, dim: nat)
    requires
        wf_tree(t, axis, dim),
        axis < dim,
        q.len() == dim,
        norm2(q) > 0,
        points_of(t).contains(q),
        forall|p: Seq<i64>, a2: int|
            points_of(t).contains(p) && p != q && 0 <= a2 < dim ==> p[a2] != q[a2],
    ensures
        nn_spec(t, q, axis, dim) is Some,
        sim_is_one(nn_spec(t, q, axis, dim).unwrap(), q),
    decreases t,
{
    broadcast use vstd::multiset::group_multiset_axioms;

    lemma_sim_self(q);
    lemma_wf_tree_points(t, axis, dim);
    let n = t.unwrap();
    let a = axis as int;
    let nv = n.vector@;
    let go_left = q[a] < nv[a];
    let primary = if go_left {
        n.left
    } else {
        n.right
    };
    let secondary = if go_left {
        n.right
    } else {
        n.left
    };
    let nx = next_axis(axis, dim);
    let sub = nn_spec(primary, q, nx, dim);
    let best = if sub is None || sim_gt(nv, sub.unwrap(), q) {
        nv
    } else {
        sub.unwrap()
    };
    assert(points_of(t) == points_of(n.left).insert(nv).add(points_of(n.right)));
    lemma_query_some(primary, q, nx, dim);
    // the candidate adopted after the near branch has similarity exactly 1
    assert(sim_is_one(best, q)) by {
        if nv == q {
            assert(sim_is_one(nv, q));
            if !(sub is None || sim_gt(nv, sub.unwrap(), q)) {
                lemma_result_in_tree(primary, q, nx, dim);
                lemma_wf_tree_points(primary, nx, dim);
                lemma_tied_with_one_is_one(nv, sub.unwrap(), q);
            }
        } else {
            // the query point lies in the near branch: it differs from the
            // node's point on the split axis, and the far branch is bounded
            // by the node's coordinate on the wrong side
            assert(nv[a] != q[a]);
            assert(points_of(primary).contains(q)) by {
                if go_left {
                    if points_of(n.right).contains(q) {
                        assert(q[a] >= nv[a]);
                        assert(false);
                    }
                } else {
                    if points_of(n.left).contains(q) {
                        assert(q[a] <= nv[a]);
                        assert(false);
                    }
                }
            }
            assert(primary is Some) by {
                if primary is None {
                    assert(points_of(primary).len() == 0);
                }
            }
            assert forall|p: Seq<i64>, a2: int|
                points_of(primary).contains(p) && p != q && 0 <= a2 < dim implies p[a2]
                != q[a2] by {
                assert(points_of(t).contains(p));
            }
            lemma_exact_match(primary, q, nx, dim);
            let rp = sub.unwrap();
            assert(sim_is_one(rp, q));
            if sim_gt(nv, rp, q) {
                lemma_nothing_beats_one(nv, rp, q);
                assert(false);
            }
            assert(best == rp);
        }
    }
    // a point of similarity 1 is never replaced while backtracking
    let gap = if q[a] >= nv[a] {
        (q[a] - nv[a]) as int
    } else {
        (nv[a] - q[a]) as int
    };
    if gap_gt_sim(gap, best, q) {
        let sub2 = nn_spec(secondary, q, nx, dim);
        if sub2 is Some && sim_gt(sub2.unwrap(), best, q) {
            lemma_query_some(secondary, q, nx, dim);
            lemma_result_in_tree(secondary, q, nx, dim);
            lemma_wf_tree_points(secondary, nx, dim);
            lemma_nothing_beats_one(sub2.unwrap(), best, q);
            assert(false);
        }
    }
}

} // verus!
